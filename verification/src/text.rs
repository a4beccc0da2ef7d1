//! Characters, decimal numbers, trimming, and the options text.

use crate::game::{ErrorCode, GameError, GameOptions};
use vstd::arithmetic::div_mod::lemma_fundamental_div_mod;
use vstd::prelude::*;
use vstd::string::StringExecFns;

verus! {

/// An ASCII decimal digit.
pub open spec fn is_digit(c: char) -> bool {
    c == '0' || c == '1' || c == '2' || c == '3' || c == '4' || c == '5' || c == '6' || c == '7'
        || c == '8' || c == '9'
}

/// The value of a decimal digit.
pub open spec fn digit_val(c: char) -> int {
    if c == '0' {
        0
    } else if c == '1' {
        1
    } else if c == '2' {
        2
    } else if c == '3' {
        3
    } else if c == '4' {
        4
    } else if c == '5' {
        5
    } else if c == '6' {
        6
    } else if c == '7' {
        7
    } else if c == '8' {
        8
    } else {
        9
    }
}

/// The decimal digit for a value below ten.
pub open spec fn digit_char(d: int) -> char {
    if d == 0 {
        '0'
    } else if d == 1 {
        '1'
    } else if d == 2 {
        '2'
    } else if d == 3 {
        '3'
    } else if d == 4 {
        '4'
    } else if d == 5 {
        '5'
    } else if d == 6 {
        '6'
    } else if d == 7 {
        '7'
    } else if d == 8 {
        '8'
    } else {
        '9'
    }
}

/// Every character of `t` is a decimal digit.
pub open spec fn all_digits(t: Seq<char>) -> bool {
    forall|i: int| 0 <= i < t.len() ==> is_digit(#[trigger] t[i])
}

/// The number that the digit string `t` denotes.
pub open spec fn val(t: Seq<char>) -> int
    decreases t.len(),
{
    if t.len() == 0 {
        0
    } else {
        val(t.drop_last()) * 10 + digit_val(t.last())
    }
}

/// The canonical decimal digits of `n >= 0`.
pub open spec fn dec(n: int) -> Seq<char>
    decreases n,
{
    if n < 10 {
        seq![digit_char(n)]
    } else {
        dec(n / 10).push(digit_char(n % 10))
    }
}

/// An ASCII whitespace character.
pub open spec fn is_space(c: char) -> bool {
    c == ' ' || c == '\t' || c == '\n' || c == '\r' || c == '\u{c}'
}

/// The first index at or after `i` holding a non-space character, or
/// the length.
pub open spec fn trim_start_idx(t: Seq<char>, i: int) -> int
    decreases t.len() - i,
{
    if 0 <= i < t.len() && is_space(t[i]) {
        trim_start_idx(t, i + 1)
    } else {
        i
    }
}

/// One past the last index below `j` holding a non-space character,
/// or zero.
pub open spec fn trim_end_idx(t: Seq<char>, j: int) -> int
    decreases j,
{
    if 0 < j <= t.len() && is_space(t[j - 1]) {
        trim_end_idx(t, j - 1)
    } else {
        j
    }
}

/// `t` without leading and trailing whitespace.
pub open spec fn trim(t: Seq<char>) -> Seq<char> {
    let a = trim_start_idx(t, 0);
    let b = trim_end_idx(t, t.len() as int);
    if a <= b {
        t.subrange(a, b)
    } else {
        Seq::empty()
    }
}

/// Digit strings denote nonnegative numbers, and appending digits
/// never shrinks the value.
pub proof fn lemma_val_bounds(t: Seq<char>, i: int)
    requires
        0 <= i <= t.len(),
    ensures
        val(t) >= 0,
        val(t) >= val(t.take(i)),
    decreases t.len(),
{
    if t.len() == 0 {
        assert(t.take(i) =~= t);
    } else {
        lemma_val_bounds(t.drop_last(), if i < t.len() {
            i
        } else {
            t.len() - 1
        });
        if i < t.len() {
            assert(t.take(i) =~= t.drop_last().take(i));
        } else {
            assert(t.take(i) =~= t);
        }
        assert(digit_val(t.last()) >= 0);
        assert(val(t) == val(t.drop_last()) * 10 + digit_val(t.last()));
        assert(val(t.drop_last()) * 10 >= val(t.drop_last())) by (nonlinear_arith)
            requires
                val(t.drop_last()) >= 0,
        ;
    }
}

/// Reading one more digit multiplies the prefix value by ten and adds
/// the digit.
pub proof fn lemma_val_step(t: Seq<char>, i: int)
    requires
        0 <= i < t.len(),
    ensures
        val(t.take(i + 1)) == val(t.take(i)) * 10 + digit_val(t[i]),
{
    assert(t.take(i + 1).drop_last() =~= t.take(i));
    assert(t.take(i + 1).last() == t[i]);
}

/// The canonical digits of `n` are digits, denote `n`, and never
/// start with a superfluous zero.
pub proof fn lemma_dec_val(n: int)
    requires
        n >= 0,
    ensures
        all_digits(dec(n)),
        val(dec(n)) == n,
        dec(n).len() >= 1,
        dec(n)[0] != '0' || n == 0,
    decreases n,
{
    if n < 10 {
        let d0 = seq![digit_char(n)];
        assert(d0.drop_last() =~= Seq::<char>::empty());
        assert(val(d0) == val(d0.drop_last()) * 10 + digit_val(d0.last()));
    } else {
        lemma_dec_val(n / 10);
        lemma_fundamental_div_mod(n, 10);
        let d = dec(n / 10);
        assert(dec(n) =~= d.push(digit_char(n % 10)));
        assert(dec(n).drop_last() =~= d);
        assert(val(dec(n)) == val(d) * 10 + digit_val(digit_char(n % 10)));
        assert(n / 10 >= 1);
        assert forall|i: int| 0 <= i < dec(n).len() implies is_digit(#[trigger] dec(n)[i]) by {
            if i < d.len() {
                assert(dec(n)[i] == d[i]);
            }
        }
    }
}

/// How many digits the decimal form of a byte-sized number has.
pub proof fn lemma_dec_len_u8(n: int)
    requires
        0 <= n <= 255,
    ensures
        dec(n).len() == if n < 10 {
            1int
        } else if n < 100 {
            2int
        } else {
            3int
        },
{
    if n >= 10 {
        assert(dec(n) == dec(n / 10).push(digit_char(n % 10)));
        if n >= 100 {
            assert(dec(n / 10) == dec(n / 10 / 10).push(digit_char(n / 10 % 10)));
            assert(n / 10 / 10 < 10);
        }
    }
}

/// Append one character of the text formats to `out`.
pub(crate) fn push_char(out: &mut String, c: char)
    requires
        is_digit(c) || c == 'X' || c == 'O' || c == 'x' || c == 'o' || c == '/' || c == '#' || c
            == '-' || c == ' ' || c == '|' || c == '\n',
    ensures
        final(out)@ == old(out)@ + seq![c],
{
    match c {
        '0' => {
            proof {
                reveal_strlit("0");
            }
            out.append("0");
        },
        '1' => {
            proof {
                reveal_strlit("1");
            }
            out.append("1");
        },
        '2' => {
            proof {
                reveal_strlit("2");
            }
            out.append("2");
        },
        '3' => {
            proof {
                reveal_strlit("3");
            }
            out.append("3");
        },
        '4' => {
            proof {
                reveal_strlit("4");
            }
            out.append("4");
        },
        '5' => {
            proof {
                reveal_strlit("5");
            }
            out.append("5");
        },
        '6' => {
            proof {
                reveal_strlit("6");
            }
            out.append("6");
        },
        '7' => {
            proof {
                reveal_strlit("7");
            }
            out.append("7");
        },
        '8' => {
            proof {
                reveal_strlit("8");
            }
            out.append("8");
        },
        '9' => {
            proof {
                reveal_strlit("9");
            }
            out.append("9");
        },
        'X' => {
            proof {
                reveal_strlit("X");
            }
            out.append("X");
        },
        'O' => {
            proof {
                reveal_strlit("O");
            }
            out.append("O");
        },
        'x' => {
            proof {
                reveal_strlit("x");
            }
            out.append("x");
        },
        'o' => {
            proof {
                reveal_strlit("o");
            }
            out.append("o");
        },
        '/' => {
            proof {
                reveal_strlit("/");
            }
            out.append("/");
        },
        '#' => {
            proof {
                reveal_strlit("#");
            }
            out.append("#");
        },
        '-' => {
            proof {
                reveal_strlit("-");
            }
            out.append("-");
        },
        ' ' => {
            proof {
                reveal_strlit(" ");
            }
            out.append(" ");
        },
        '|' => {
            proof {
                reveal_strlit("|");
            }
            out.append("|");
        },
        _ => {
            proof {
                reveal_strlit("\n");
            }
            out.append("\n");
        },
    }
}

/// The characters of `s`, in order.
pub(crate) fn to_chars(s: &str) -> (v: Vec<char>)
    ensures
        v@ == s@,
{
    broadcast use vstd::string::axiom_spec_iter;

    let mut v: Vec<char> = Vec::new();
    for c in it: s.chars()
        invariant
            it.seq() == s@,
            v@ == s@.take(it.index() as int),
    {
        v.push(c);
        proof {
            assert(v@ =~= s@.take(it.index() + 1));
        }
    }
    proof {
        assert(v@ =~= s@);
    }
    v
}

/// Is `c` a decimal digit?
fn is_digit_exec(c: char) -> (r: bool)
    ensures
        r == is_digit(c),
{
    c == '0' || c == '1' || c == '2' || c == '3' || c == '4' || c == '5' || c == '6' || c == '7'
        || c == '8' || c == '9'
}

/// The value of the digit `c`.
fn digit_val_exec(c: char) -> (r: u8)
    requires
        is_digit(c),
    ensures
        r == digit_val(c),
        r < 10,
{
    match c {
        '0' => 0,
        '1' => 1,
        '2' => 2,
        '3' => 3,
        '4' => 4,
        '5' => 5,
        '6' => 6,
        '7' => 7,
        '8' => 8,
        _ => 9,
    }
}

/// The digit for a value below ten.
fn digit_char_exec(d: u8) -> (r: char)
    requires
        d < 10,
    ensures
        r == digit_char(d as int),
{
    match d {
        0 => '0',
        1 => '1',
        2 => '2',
        3 => '3',
        4 => '4',
        5 => '5',
        6 => '6',
        7 => '7',
        8 => '8',
        _ => '9',
    }
}

/// Is `c` ASCII whitespace?
fn is_space_exec(c: char) -> (r: bool)
    ensures
        r == is_space(c),
{
    c == ' ' || c == '\t' || c == '\n' || c == '\r' || c == '\u{c}'
}

/// The characters of `v` from `a` up to `b`.
pub(crate) fn subvec(v: &Vec<char>, a: usize, b: usize) -> (r: Vec<char>)
    requires
        a <= b <= v@.len(),
    ensures
        r@ == v@.subrange(a as int, b as int),
{
    let mut r: Vec<char> = Vec::new();
    let mut i = a;
    while i < b
        invariant
            a <= i <= b <= v@.len(),
            r@ =~= v@.subrange(a as int, i as int),
        decreases b - i,
    {
        r.push(v[i]);
        proof {
            assert(r@ =~= v@.subrange(a as int, i + 1));
        }
        i += 1;
    }
    r
}

/// `v` without leading whitespace.
pub(crate) fn trim_start_vec(v: &Vec<char>) -> (r: Vec<char>)
    ensures
        r@ == v@.skip(trim_start_idx(v@, 0)),
        r@.len() == 0 || !is_space(r@[0]),
{
    let n = v.len();
    let mut i: usize = 0;
    while i < n && is_space_exec(v[i])
        invariant
            i <= n,
            n == v@.len(),
            trim_start_idx(v@, 0) == trim_start_idx(v@, i as int),
        decreases n - i,
    {
        i += 1;
    }
    let r = subvec(v, i, n);
    proof {
        assert(trim_start_idx(v@, i as int) == i);
        assert(r@ =~= v@.skip(i as int));
    }
    r
}

/// `v` without leading and trailing whitespace.
pub(crate) fn trim_vec(v: &Vec<char>) -> (r: Vec<char>)
    ensures
        r@ == trim(v@),
{
    let n = v.len();
    let mut a: usize = 0;
    while a < n && is_space_exec(v[a])
        invariant
            a <= n,
            n == v@.len(),
            trim_start_idx(v@, 0) == trim_start_idx(v@, a as int),
        decreases n - a,
    {
        a += 1;
    }
    proof {
        assert(trim_start_idx(v@, a as int) == a);
    }
    let mut b: usize = n;
    while b > 0 && is_space_exec(v[b - 1])
        invariant
            b <= n,
            n == v@.len(),
            trim_end_idx(v@, n as int) == trim_end_idx(v@, b as int),
        decreases b,
    {
        b -= 1;
    }
    proof {
        assert(trim_end_idx(v@, b as int) == b);
    }
    if a <= b {
        subvec(v, a, b)
    } else {
        Vec::new()
    }
}

/// The decimal text of `n`.
fn format_u64(n: u64) -> (r: String)
    ensures
        r@ == dec(n as int),
    decreases n,
{
    if n < 10 {
        let mut s = String::new();
        push_char(&mut s, digit_char_exec(n as u8));
        proof {
            assert(s@ =~= dec(n as int));
        }
        s
    } else {
        let mut s = format_u64(n / 10);
        push_char(&mut s, digit_char_exec((n % 10) as u8));
        proof {
            assert(s@ =~= dec(n as int));
        }
        s
    }
}

/// Parse the digit run `v[start..end]` as a byte-sized number.
///
/// Fails on an empty run and on a value above 255.
fn parse_u8_digits(v: &Vec<char>, start: usize, end: usize) -> (r: Result<u8, GameError>)
    requires
        start <= end <= v@.len(),
        all_digits(v@.subrange(start as int, end as int)),
    ensures
        ({
            let t = v@.subrange(start as int, end as int);
            &&& (r is Ok) == (start < end && val(t) <= 255)
            &&& r matches Ok(n) ==> n == val(t)
            &&& r matches Err(e) ==> e.code == ErrorCode::InvalidInput
        }),
{
    let ghost t = v@.subrange(start as int, end as int);
    if start == end {
        return Err(GameError { code: ErrorCode::InvalidInput, msg: "missing number" });
    }
    let mut acc: u16 = 0;
    let mut i = start;
    while i < end
        invariant
            start <= i <= end <= v@.len(),
            t == v@.subrange(start as int, end as int),
            all_digits(t),
            acc <= 255,
            acc == val(t.take(i - start)),
        decreases end - i,
    {
        proof {
            assert(t[i - start] == v@[i as int]);
            assert(is_digit(t[i - start]));
        }
        let d = digit_val_exec(v[i]);
        proof {
            lemma_val_step(t, i - start);
        }
        let next: u16 = acc * 10 + d as u16;
        if next > 255 {
            proof {
                lemma_val_bounds(t, i + 1 - start);
            }
            return Err(GameError { code: ErrorCode::InvalidInput, msg: "number too large" });
        }
        acc = next;
        i += 1;
    }
    proof {
        assert(t.take(end - start) =~= t);
    }
    Ok(acc as u8)
}

/// The end of the digit run starting at `i`.
pub open spec fn tok_end(t: Seq<char>, i: int) -> int
    decreases t.len() - i,
{
    if 0 <= i < t.len() && is_digit(t[i]) {
        tok_end(t, i + 1)
    } else {
        i
    }
}

/// A digit run reaches no further than the length and consists of
/// digits only.
pub proof fn lemma_tok_end(t: Seq<char>, i: int)
    requires
        0 <= i <= t.len(),
    ensures
        i <= tok_end(t, i) <= t.len(),
        forall|j: int| i <= j < tok_end(t, i) ==> is_digit(#[trigger] t[j]),
        tok_end(t, i) < t.len() ==> !is_digit(t[tok_end(t, i)]),
    decreases t.len() - i,
{
    if i < t.len() && is_digit(t[i]) {
        lemma_tok_end(t, i + 1);
    }
}

/// The end of the digit run of `v` starting at `i`.
fn tok_end_exec(v: &Vec<char>, i: usize) -> (e: usize)
    requires
        i <= v@.len(),
    ensures
        e == tok_end(v@, i as int),
        i <= e <= v@.len(),
{
    let n = v.len();
    let mut e = i;
    while e < n && is_digit_exec(v[e])
        invariant
            i <= e <= n,
            n == v@.len(),
            tok_end(v@, i as int) == tok_end(v@, e as int),
        decreases n - e,
    {
        e += 1;
    }
    e
}

/// What parsing an options text yields: the options, or the kind of
/// error. The text is trimmed; then it must consist of exactly three
/// decimal numbers separated by single non-digit characters, each at
/// most 255; the dimensions must be nonzero and the run length must
/// fit in at least one dimension.
pub open spec fn spec_parse_options(s: Seq<char>) -> Result<GameOptions, ErrorCode> {
    let t = trim(s);
    let e1 = tok_end(t, 0);
    let e2 = tok_end(t, e1 + 1);
    let e3 = tok_end(t, e2 + 1);
    if e1 == 0 || val(t.subrange(0, e1)) > 255 {
        Err(ErrorCode::InvalidInput)
    } else if e1 >= t.len() {
        Err(ErrorCode::InvalidInput)
    } else if e2 == e1 + 1 || val(t.subrange(e1 + 1, e2)) > 255 {
        Err(ErrorCode::InvalidInput)
    } else if e2 >= t.len() {
        Err(ErrorCode::InvalidInput)
    } else if e3 == e2 + 1 || val(t.subrange(e2 + 1, e3)) > 255 {
        Err(ErrorCode::InvalidInput)
    } else if e3 < t.len() {
        Err(ErrorCode::InvalidInput)
    } else {
        let w = val(t.subrange(0, e1));
        let h = val(t.subrange(e1 + 1, e2));
        let l = val(t.subrange(e2 + 1, e3));
        if w < 1 || h < 1 || l < 1 {
            Err(ErrorCode::InvalidOptions)
        } else if l > w && l > h {
            Err(ErrorCode::InvalidOptions)
        } else {
            Ok(GameOptions { width: w as u8, height: h as u8, length: l as u8 })
        }
    }
}

impl GameOptions {
    /// Parse an options text such as `7x6@4`: column count, row
    /// count, and the number of connected stones needed to win,
    /// separated by any single non-digit characters.
    pub fn new(options: &str) -> (r: Result<GameOptions, GameError>)
        ensures
            (r is Ok) == (spec_parse_options(options@) is Ok),
            r matches Ok(o) ==> spec_parse_options(options@) == Ok::<GameOptions, ErrorCode>(o)
                && o.valid(),
            r matches Err(e) ==> spec_parse_options(options@) == Err::<GameOptions, ErrorCode>(
                e.code,
            ),
    {
        let chars = to_chars(options);
        let t = trim_vec(&chars);
        let ghost ts = t@;
        let e1 = tok_end_exec(&t, 0);
        proof {
            lemma_tok_end(ts, 0);
        }
        let w = match parse_u8_digits(&t, 0, e1) {
            Ok(w) => w,
            Err(e) => {
                return Err(e);
            },
        };
        if e1 >= t.len() {
            return Err(GameError { code: ErrorCode::InvalidInput, msg: "missing height" });
        }
        let e2 = tok_end_exec(&t, e1 + 1);
        proof {
            lemma_tok_end(ts, e1 + 1);
        }
        let h = match parse_u8_digits(&t, e1 + 1, e2) {
            Ok(h) => h,
            Err(e) => {
                return Err(e);
            },
        };
        if e2 >= t.len() {
            return Err(GameError { code: ErrorCode::InvalidInput, msg: "missing length" });
        }
        let e3 = tok_end_exec(&t, e2 + 1);
        proof {
            lemma_tok_end(ts, e2 + 1);
        }
        let l = match parse_u8_digits(&t, e2 + 1, e3) {
            Ok(l) => l,
            Err(e) => {
                return Err(e);
            },
        };
        if e3 < t.len() {
            return Err(
                GameError { code: ErrorCode::InvalidInput, msg: "unexpected text after options" },
            );
        }
        if w < 1 || h < 1 || l < 1 {
            return Err(
                GameError {
                    code: ErrorCode::InvalidOptions,
                    msg: "width, height, and length need to be at least 1",
                },
            );
        }
        if l > w && l > h {
            return Err(
                GameError {
                    code: ErrorCode::InvalidOptions,
                    msg: "length must not exceed both width and height",
                },
            );
        }
        Ok(GameOptions { width: w, height: h, length: l })
    }
}

/// The options as text: width, height, and run length as decimal
/// numbers separated by single spaces.
pub open spec fn options_text(o: GameOptions) -> Seq<char> {
    dec(o.width as int) + seq![' '] + dec(o.height as int) + seq![' '] + dec(o.length as int)
}

/// Whether a move text parses: after trimming and an optional leading
/// plus sign there must be at least one digit, nothing else, and a
/// value that fits in 64 bits.
pub open spec fn move_digits(s: Seq<char>) -> Seq<char> {
    let t = trim(s);
    if t.len() > 0 && t[0] == '+' {
        t.skip(1)
    } else {
        t
    }
}

/// Does a move text denote a column number?
pub open spec fn spec_parse_move_ok(s: Seq<char>) -> bool {
    let d = move_digits(s);
    d.len() > 0 && all_digits(d) && val(d) <= u64::MAX
}

/// Parse a move text as a column number.
pub fn parse_move_text(s: &str) -> (r: Result<u64, GameError>)
    ensures
        (r is Ok) == spec_parse_move_ok(s@),
        r matches Ok(n) ==> n == val(move_digits(s@)),
        r matches Err(e) ==> e.code == ErrorCode::InvalidInput,
{
    let chars = to_chars(s);
    let t = trim_vec(&chars);
    let start: usize = if t.len() > 0 && t[0] == '+' {
        1
    } else {
        0
    };
    let ghost d = move_digits(s@);
    proof {
        assert(d =~= t@.subrange(start as int, t@.len() as int));
    }
    if start >= t.len() {
        return Err(GameError { code: ErrorCode::InvalidInput, msg: "missing move number" });
    }
    let mut acc: u64 = 0;
    let mut i = start;
    while i < t.len()
        invariant
            start <= i <= t@.len(),
            d == move_digits(s@),
            d == t@.subrange(start as int, t@.len() as int),
            forall|j: int| 0 <= j < i - start ==> is_digit(#[trigger] d[j]),
            acc == val(d.take(i - start)),
        decreases t@.len() - i,
    {
        let c = t[i];
        proof {
            assert(d[i - start] == t@[i as int]);
        }
        if !is_digit_exec(c) {
            proof {
                assert(!is_digit(d[i - start]));
            }
            return Err(GameError { code: ErrorCode::InvalidInput, msg: "not a decimal number" });
        }
        let dv = digit_val_exec(c);
        proof {
            lemma_val_step(d, i - start);
            lemma_val_bounds(d.take(i - start), 0);
        }
        if acc > (u64::MAX - dv as u64) / 10 {
            proof {
                let prev = val(d.take(i - start));
                lemma_fundamental_div_mod(u64::MAX - dv, 10);
                assert(prev * 10 + dv > u64::MAX) by (nonlinear_arith)
                    requires
                        prev > (u64::MAX - dv) / 10,
                        u64::MAX - dv == 10 * ((u64::MAX - dv) / 10) + (u64::MAX - dv) % 10,
                        0 <= (u64::MAX - dv) % 10 < 10,
                        prev >= 0,
                ;
                assert(val(d.take(i + 1 - start)) > u64::MAX);
                assert forall|j: int| 0 <= j < i + 1 - start implies is_digit(
                    #[trigger] d[j],
                ) by {}
                lemma_val_bounds_partial(d, i + 1 - start);
            }
            return Err(GameError { code: ErrorCode::InvalidInput, msg: "move number too large" });
        }
        proof {
            let prev = val(d.take(i - start));
            lemma_fundamental_div_mod(u64::MAX - dv, 10);
            assert(prev * 10 + dv <= u64::MAX) by (nonlinear_arith)
                requires
                    prev <= (u64::MAX - dv) / 10,
                    u64::MAX - dv == 10 * ((u64::MAX - dv) / 10) + (u64::MAX - dv) % 10,
                    0 <= (u64::MAX - dv) % 10 < 10,
                    prev >= 0,
            ;
        }
        acc = acc * 10 + dv as u64;
        i += 1;
    }
    proof {
        assert(d.take(t@.len() - start) =~= d);
    }
    Ok(acc)
}

/// A digit string whose proper prefix already exceeds a bound keeps
/// exceeding it.
proof fn lemma_val_bounds_partial(t: Seq<char>, i: int)
    requires
        0 <= i <= t.len(),
        forall|j: int| 0 <= j < i ==> is_digit(#[trigger] t[j]),
        val(t.take(i)) > u64::MAX,
    ensures
        !(all_digits(t) && val(t) <= u64::MAX),
{
    if all_digits(t) {
        lemma_val_bounds(t, i);
    }
}

/// The decimal text of the column a move drops into.
pub fn format_move_text(mov: u64) -> (r: String)
    ensures
        r@ == dec(mov as int),
{
    format_u64(mov)
}

/// The decimal text of a byte-sized number.
pub(crate) fn format_u8(n: u8) -> (r: String)
    ensures
        r@ == dec(n as int),
{
    format_u64(n as u64)
}

} // verus!
