//! Loading of Game of Life board configurations.
//!
//! The decoder understands the community-standard Run-Length-Encoded (RLE)
//! pattern text: comment lines, a header line carrying the pattern's
//! dimensions and optionally its rule, and board-description lines whose
//! tokens are an optional decimal repeat count followed by a dead-cell,
//! alive-cell, end-of-row or end-of-pattern marker.  Only the classical
//! Conway rule ("b3/s23", either capitalisation) is accepted.
//!
//! The whole grammar is specified here as a functional model over the input
//! characters — [`parse_rle`] — and the executable decoder is verified to
//! return exactly what that model says, for every input.

use vstd::prelude::*;

use crate::board::{neighbor_count, step_grid, Board};
use crate::cell::next_state;

verus! {

// ---------------------------------------------------------------------------
// Characters
// ---------------------------------------------------------------------------
/// Whitespace accepted inside a header clause.
pub open spec fn is_ws(c: char) -> bool {
    c == ' ' || c == '\t'
}

/// Decimal digit.
pub open spec fn is_digit(c: char) -> bool {
    '0' as u32 <= c as u32 && c as u32 <= '9' as u32
}

/// Value of a decimal digit.
pub open spec fn digit_val(c: char) -> int {
    c as u32 - '0' as u32
}

/// Case-insensitive match of `c` against the lower-case letter `l`.
pub open spec fn eqi(c: char, l: char) -> bool {
    c == l || c as u32 + 32 == l as u32
}

/// A character that may form a rule token: letters, digits, `_` and `/`.
pub open spec fn is_word(c: char) -> bool {
    is_digit(c) || ('a' as u32 <= c as u32 && c as u32 <= 'z' as u32) || ('A' as u32 <= c as u32
        && c as u32 <= 'Z' as u32) || c == '_' || c == '/'
}

/// A character that makes a line a board-description line: a dead-cell,
/// alive-cell, end-of-row or end-of-pattern marker, either capitalisation.
pub open spec fn is_board_char(c: char) -> bool {
    eqi(c, 'b') || eqi(c, 'o') || c == '$' || c == '!'
}

// ---------------------------------------------------------------------------
// Scanning within a line
// ---------------------------------------------------------------------------
/// First index at or after `i` holding a non-whitespace character (or the end
/// of the line).
pub open spec fn skip_ws(line: Seq<char>, i: int) -> int
    decreases line.len() - i,
{
    if i < 0 || i >= line.len() {
        i
    } else if is_ws(line[i]) {
        skip_ws(line, i + 1)
    } else {
        i
    }
}

/// First index at or after `i` holding a non-digit (or the end of the line).
pub open spec fn digits_end(line: Seq<char>, i: int) -> int
    decreases line.len() - i,
{
    if i < 0 || i >= line.len() {
        i
    } else if is_digit(line[i]) {
        digits_end(line, i + 1)
    } else {
        i
    }
}

/// Value of the decimal digit run `line[i..j)`.
pub open spec fn digits_val(line: Seq<char>, i: int, j: int) -> int
    decreases j - i,
{
    if j <= i {
        0
    } else {
        digits_val(line, i, j - 1) * 10 + digit_val(line[j - 1])
    }
}

/// First index at or after `i` holding a non-word character (or the end of
/// the line).
pub open spec fn word_end(line: Seq<char>, i: int) -> int
    decreases line.len() - i,
{
    if i < 0 || i >= line.len() {
        i
    } else if is_word(line[i]) {
        word_end(line, i + 1)
    } else {
        i
    }
}

// ---------------------------------------------------------------------------
// The dimensions clause:  x = <int>, y = <int>
// ---------------------------------------------------------------------------
/// The dimensions clause starting exactly at `i`, if there is one:
/// `x`, `=`, a digit run, `,`, `y`, `=`, a digit run, with optional blanks
/// around the `=` signs and after the comma, case-insensitive.
pub open spec fn dims_at(line: Seq<char>, i: int) -> Option<(int, int)> {
    if !(0 <= i < line.len() && eqi(line[i], 'x')) {
        None
    } else {
        let a = skip_ws(line, i + 1);
        if !(a < line.len() && line[a] == '=') {
            None
        } else {
            let b = skip_ws(line, a + 1);
            let e1 = digits_end(line, b);
            if e1 == b || !(e1 < line.len() && line[e1] == ',') {
                None
            } else {
                let d = skip_ws(line, e1 + 1);
                if !(d < line.len() && eqi(line[d], 'y')) {
                    None
                } else {
                    let e = skip_ws(line, d + 1);
                    if !(e < line.len() && line[e] == '=') {
                        None
                    } else {
                        let f = skip_ws(line, e + 1);
                        let e2 = digits_end(line, f);
                        if e2 == f {
                            None
                        } else {
                            Some((digits_val(line, b, e1), digits_val(line, f, e2)))
                        }
                    }
                }
            }
        }
    }
}

/// The leftmost dimensions clause at or after `i`.
pub open spec fn find_dims(line: Seq<char>, i: int) -> Option<(int, int)>
    decreases line.len() - i,
{
    if i < 0 || i >= line.len() {
        None
    } else if dims_at(line, i) is Some {
        dims_at(line, i)
    } else {
        find_dims(line, i + 1)
    }
}

// ---------------------------------------------------------------------------
// The rule clause:  rule = <token>  or  type = <token>
// ---------------------------------------------------------------------------
/// Does the keyword `rule` or `type` start exactly at `i` (case-insensitive)?
pub open spec fn keyword_at(line: Seq<char>, i: int) -> bool {
    &&& 0 <= i
    &&& i + 4 <= line.len()
    &&& ((eqi(line[i], 't') && eqi(line[i + 1], 'y') && eqi(line[i + 2], 'p') && eqi(
        line[i + 3],
        'e',
    )) || (eqi(line[i], 'r') && eqi(line[i + 1], 'u') && eqi(line[i + 2], 'l') && eqi(
        line[i + 3],
        'e',
    )))
}

/// The rule clause starting exactly at `i`, if there is one: the keyword,
/// `=`, then a non-empty token of word characters, whose bounds are returned.
pub open spec fn rule_at(line: Seq<char>, i: int) -> Option<(int, int)> {
    if !keyword_at(line, i) {
        None
    } else {
        let a = skip_ws(line, i + 4);
        if !(a < line.len() && line[a] == '=') {
            None
        } else {
            let b = skip_ws(line, a + 1);
            let e = word_end(line, b);
            if e == b {
                None
            } else {
                Some((b, e))
            }
        }
    }
}

/// The leftmost rule clause at or after `i`.
pub open spec fn find_rule(line: Seq<char>, i: int) -> Option<(int, int)>
    decreases line.len() - i,
{
    if i < 0 || i >= line.len() {
        None
    } else if rule_at(line, i) is Some {
        rule_at(line, i)
    } else {
        find_rule(line, i + 1)
    }
}

/// Is the token `line[b..e)` the classical Conway rule `b3/s23`
/// (case-insensitive)?
pub open spec fn token_is_conway(line: Seq<char>, b: int, e: int) -> bool {
    &&& e - b == 6
    &&& 0 <= b
    &&& e <= line.len()
    &&& eqi(line[b], 'b')
    &&& line[b + 1] == '3'
    &&& line[b + 2] == '/'
    &&& eqi(line[b + 3], 's')
    &&& line[b + 4] == '2'
    &&& line[b + 5] == '3'
}

/// Does the line hold any board-description marker at or after `i`?
pub open spec fn has_board_char(line: Seq<char>, i: int) -> bool
    decreases line.len() - i,
{
    if i < 0 || i >= line.len() {
        false
    } else if is_board_char(line[i]) {
        true
    } else {
        has_board_char(line, i + 1)
    }
}

// ---------------------------------------------------------------------------
// Splitting the input into lines
// ---------------------------------------------------------------------------
/// Index of the first newline at or after `i` (or the end of the input).
pub open spec fn find_nl(s: Seq<char>, i: int) -> int
    decreases s.len() - i,
{
    if i < 0 || i >= s.len() {
        s.len() as int
    } else if s[i] == '\n' {
        i
    } else {
        find_nl(s, i + 1)
    }
}

/// `find_nl` lands between its start and the end of the input.
pub proof fn lemma_find_nl_bounds(s: Seq<char>, i: int)
    requires
        0 <= i <= s.len(),
    ensures
        i <= find_nl(s, i) <= s.len(),
    decreases s.len() - i,
{
    if i < s.len() && s[i] != '\n' {
        lemma_find_nl_bounds(s, i + 1);
    }
}

/// The input split at newlines; a carriage return before a newline belongs to
/// the line ending, and a final line ending is optional.
pub open spec fn split_lines(s: Seq<char>) -> Seq<Seq<char>>
    decreases s.len(),
    via split_lines_decreases
{
    if s.len() == 0 {
        Seq::empty()
    } else {
        let k = find_nl(s, 0);
        if k == s.len() {
            seq![s]
        } else {
            let raw = s.subrange(0, k);
            let line = if raw.len() > 0 && raw[raw.len() - 1] == '\r' {
                raw.drop_last()
            } else {
                raw
            };
            seq![line] + split_lines(s.subrange(k + 1, s.len() as int))
        }
    }
}

// ---------------------------------------------------------------------------
// The decoder state machine
// ---------------------------------------------------------------------------
#[via_fn]
proof fn split_lines_decreases(s: Seq<char>) {
    lemma_find_nl_bounds(s, 0);
}

/// Decoder state: the matrix built so far, the declared dimensions, and the
/// write cursors of the board-description grammar.
pub struct ParseSt {
    pub board: Seq<Seq<u8>>,
    pub x: nat,
    pub y: nat,
    pub row: nat,
    pub col: nat,
}

/// What a decode returns: the finished matrix, or one of the decode
/// failures — a non-Conway rule token, missing or malformed dimensions, or
/// pattern content that does not fit the declared dimensions.
pub enum ParseOut {
    Done(Seq<Seq<u8>>),
    BadRule,
    BadDims,
    NoFit,
}

/// What processing one line does: carry on with a new state, or stop with an
/// outcome (the end-of-pattern marker, or a failure).
pub enum LineStep {
    Go(ParseSt),
    Halt(ParseOut),
}

/// The initial decoder state: no matrix, no dimensions, cursors at origin.
pub open spec fn init_st() -> ParseSt {
    ParseSt { board: Seq::empty(), x: 0, y: 0, row: 0, col: 0 }
}

/// A row of `x` dead cells.
pub open spec fn zero_row(x: nat) -> Seq<u8> {
    Seq::new(x, |j: int| 0u8)
}

/// `y` rows of `x` dead cells, as a dimensions clause allocates them.
pub open spec fn zero_rows(y: nat, x: nat) -> Seq<Seq<u8>> {
    Seq::new(y, |i: int| zero_row(x))
}

/// Cursor advancement saturates at `usize::MAX` instead of wrapping: a cursor
/// so far out can never be written to, so nothing observable is lost.
pub open spec fn sat_add(a: nat, b: nat) -> nat {
    if a + b > usize::MAX {
        usize::MAX as nat
    } else {
        a + b
    }
}

/// The repeat count a token carries: the accumulated digits, or 1 when there
/// are none or their value does not fit a `usize`.
pub open spec fn count_of(acc: Option<nat>) -> nat {
    match acc {
        Option::None => 1,
        Option::Some(v) => if v > usize::MAX {
            1
        } else {
            v
        },
    }
}

/// `row` with entries `from .. from + n` marked alive.
pub open spec fn mark_row(row: Seq<u8>, from: int, n: int) -> Seq<u8> {
    Seq::new(
        row.len(),
        |j: int| if from <= j < from + n {
            1u8
        } else {
            row[j]
        },
    )
}

/// Run the board-description tokens of `line` from position `i`, with `acc`
/// the digits accumulated so far.  A digit extends the count; a dead-cell
/// marker advances the column; an alive-cell marker writes that many alive
/// cells (stopping the decode if any falls outside the matrix); an
/// end-of-row marker advances the row and resets the column; the
/// end-of-pattern marker stops the decode with the matrix built so far; any
/// other character only discards the accumulated count.
pub open spec fn run_tokens(st: ParseSt, line: Seq<char>, i: int, acc: Option<nat>) -> LineStep
    decreases line.len() - i,
{
    if i < 0 || i >= line.len() {
        LineStep::Go(st)
    } else {
        let ch = line[i];
        if is_digit(ch) {
            let v = match acc {
                Option::None => digit_val(ch) as nat,
                Option::Some(v0) => (v0 * 10 + digit_val(ch)) as nat,
            };
            run_tokens(st, line, i + 1, Option::Some(v))
        } else if eqi(ch, 'b') {
            let st2 = ParseSt { col: sat_add(st.col, count_of(acc)), ..st };
            run_tokens(st2, line, i + 1, Option::None)
        } else if eqi(ch, 'o') {
            let n = count_of(acc);
            if n == 0 {
                run_tokens(st, line, i + 1, Option::None)
            } else if st.row < st.board.len() && st.col + n <= st.board[st.row as int].len() {
                let st2 = ParseSt {
                    board: st.board.update(
                        st.row as int,
                        mark_row(st.board[st.row as int], st.col as int, n as int),
                    ),
                    col: (st.col + n) as nat,
                    ..st
                };
                run_tokens(st2, line, i + 1, Option::None)
            } else {
                LineStep::Halt(ParseOut::NoFit)
            }
        } else if ch == '$' {
            let st2 = ParseSt { row: sat_add(st.row, count_of(acc)), col: 0, ..st };
            run_tokens(st2, line, i + 1, Option::None)
        } else if ch == '!' {
            LineStep::Halt(ParseOut::Done(st.board))
        } else {
            run_tokens(st, line, i + 1, Option::None)
        }
    }
}

/// Process one line.  Comment lines (`#`-prefixed) are skipped.  A line
/// holding a dimensions or rule clause is a header line: a non-Conway rule
/// token fails the decode, dimensions allocate that many dead rows.  A line
/// holding board markers is a board-description line — a failure if no
/// dimensions are known yet.  Any other line is ignored.
pub open spec fn step_line(st: ParseSt, line: Seq<char>) -> LineStep {
    if line.len() > 0 && line[0] == '#' {
        LineStep::Go(st)
    } else {
        let d = find_dims(line, 0);
        let ru = find_rule(line, 0);
        if d is Some || ru is Some {
            if ru is Some && !token_is_conway(line, (ru->0).0, (ru->0).1) {
                LineStep::Halt(ParseOut::BadRule)
            } else if d is Some {
                let xv = (d->0).0;
                let yv = (d->0).1;
                if xv > usize::MAX || yv > usize::MAX {
                    LineStep::Halt(ParseOut::BadDims)
                } else {
                    LineStep::Go(
                        ParseSt {
                            board: st.board + zero_rows(yv as nat, xv as nat),
                            x: xv as nat,
                            y: yv as nat,
                            ..st
                        },
                    )
                }
            } else {
                LineStep::Go(st)
            }
        } else if has_board_char(line, 0) {
            if st.x == 0 || st.y == 0 {
                LineStep::Halt(ParseOut::BadDims)
            } else {
                run_tokens(st, line, 0, Option::None)
            }
        } else {
            LineStep::Go(st)
        }
    }
}

/// Process the lines in order.  Input that ends without an end-of-pattern
/// marker yields the matrix built so far.
pub open spec fn run_lines(st: ParseSt, lines: Seq<Seq<char>>) -> ParseOut
    decreases lines.len(),
{
    if lines.len() == 0 {
        ParseOut::Done(st.board)
    } else {
        match step_line(st, lines[0]) {
            LineStep::Go(st2) => run_lines(st2, lines.drop_first()),
            LineStep::Halt(out) => out,
        }
    }
}

/// The meaning of an RLE text: the decoded matrix, or the failure.
pub open spec fn parse_rle(s: Seq<char>) -> ParseOut {
    run_lines(init_st(), split_lines(s))
}

// ---------------------------------------------------------------------------
// Executable decoder
// ---------------------------------------------------------------------------
/// The characters of `s`, one by one.
fn to_char_vec(s: &str) -> (v: Vec<char>)
    ensures
        v@ == s@,
{
    let n = s.unicode_len();
    let mut v: Vec<char> = Vec::new();
    for i in 0..n
        invariant
            n == s@.len(),
            v@ =~= s@.subrange(0, i as int),
    {
        v.push(s.get_char(i));
    }
    proof {
        assert(v@ =~= s@);
    }
    v
}

fn is_ws_x(c: char) -> (r: bool)
    ensures
        r == is_ws(c),
{
    c == ' ' || c == '\t'
}

fn is_digit_x(c: char) -> (r: bool)
    ensures
        r == is_digit(c),
{
    let u = c as u32;
    '0' as u32 <= u && u <= '9' as u32
}

fn digit_val_x(c: char) -> (r: u32)
    requires
        is_digit(c),
    ensures
        r as int == digit_val(c),
{
    c as u32 - '0' as u32
}

fn eqi_x(c: char, l: char) -> (r: bool)
    ensures
        r == eqi(c, l),
{
    c == l || (c as u32).wrapping_add(32) == l as u32 && c as u32 <= u32::MAX - 32
}

fn is_word_x(c: char) -> (r: bool)
    ensures
        r == is_word(c),
{
    let u = c as u32;
    is_digit_x(c) || ('a' as u32 <= u && u <= 'z' as u32) || ('A' as u32 <= u && u <= 'Z' as u32)
        || c == '_' || c == '/'
}

fn is_board_char_x(c: char) -> (r: bool)
    ensures
        r == is_board_char(c),
{
    eqi_x(c, 'b') || eqi_x(c, 'o') || c == '$' || c == '!'
}

fn skip_ws_x(line: &Vec<char>, i: usize) -> (r: usize)
    requires
        i <= line@.len(),
    ensures
        r as int == skip_ws(line@, i as int),
        i <= r <= line@.len(),
{
    let mut r: usize = i;
    while r < line.len() && is_ws_x(line[r])
        invariant
            i <= r <= line@.len(),
            skip_ws(line@, i as int) == skip_ws(line@, r as int),
        decreases line@.len() - r,
    {
        r += 1;
    }
    r
}

fn digits_end_x(line: &Vec<char>, i: usize) -> (r: usize)
    requires
        i <= line@.len(),
    ensures
        r as int == digits_end(line@, i as int),
        i <= r <= line@.len(),
{
    let mut r: usize = i;
    while r < line.len() && is_digit_x(line[r])
        invariant
            i <= r <= line@.len(),
            digits_end(line@, i as int) == digits_end(line@, r as int),
        decreases line@.len() - r,
    {
        r += 1;
    }
    r
}

fn word_end_x(line: &Vec<char>, i: usize) -> (r: usize)
    requires
        i <= line@.len(),
    ensures
        r as int == word_end(line@, i as int),
        i <= r <= line@.len(),
{
    let mut r: usize = i;
    while r < line.len() && is_word_x(line[r])
        invariant
            i <= r <= line@.len(),
            word_end(line@, i as int) == word_end(line@, r as int),
        decreases line@.len() - r,
    {
        r += 1;
    }
    r
}

/// The value of the digit run `line[i..j)` as a `usize`, or a flag that it
/// does not fit one.
fn digits_val_x(line: &Vec<char>, i: usize, j: usize) -> (r: (usize, bool))
    requires
        i <= j <= line@.len(),
        forall|k: int| i <= k < j ==> is_digit(#[trigger] line@[k]),
    ensures
        !r.1 ==> r.0 as int == digits_val(line@, i as int, j as int),
        r.1 <==> digits_val(line@, i as int, j as int) > usize::MAX,
{
    let mut val: usize = 0;
    let mut over: bool = false;
    for k in i..j
        invariant
            i <= k <= j <= line@.len(),
            forall|m: int| i <= m < j ==> is_digit(#[trigger] line@[m]),
            !over ==> val as int == digits_val(line@, i as int, k as int),
            over <==> digits_val(line@, i as int, k as int) > usize::MAX,
            digits_val(line@, i as int, k as int) >= 0,
    {
        let d = digit_val_x(line[k]);
        let ghost gv = digits_val(line@, i as int, k as int);
        let ghost gv2 = digits_val(line@, i as int, k as int + 1);
        proof {
            assert(gv2 == gv * 10 + digit_val(line@[k as int]));
            if over {
                assert(gv * 10 >= gv + gv) by (nonlinear_arith)
                    requires gv > usize::MAX;
            }
        }
        if !over {
            match val.checked_mul(10) {
                Option::Some(m) => {
                    match m.checked_add(d as usize) {
                        Option::Some(v2) => {
                            val = v2;
                        },
                        Option::None => {
                            over = true;
                        },
                    }
                },
                Option::None => {
                    over = true;
                },
            }
        }
    }
    (val, over)
}

/// What scanning a line for a dimensions clause found.
pub enum DimsFound {
    Absent,
    TooBig,
    At(usize, usize),
}

/// The dimensions clause starting exactly at `i`, if any, with values that
/// do not fit a `usize` reported as such.
fn dims_at_x(line: &Vec<char>, i: usize) -> (r: DimsFound)
    requires
        i <= line@.len(),
    ensures
        match dims_at(line@, i as int) {
            Option::None => r is Absent,
            Option::Some(xy) => if xy.0 > usize::MAX || xy.1 > usize::MAX {
                r is TooBig
            } else {
                r == (DimsFound::At(xy.0 as usize, xy.1 as usize))
            },
        },
        dims_at(line@, i as int) is Some ==> (dims_at(line@, i as int)->0).0 >= 0 && (dims_at(
            line@,
            i as int,
        )->0).1 >= 0,
{
    if !(i < line.len() && eqi_x(line[i], 'x')) {
        return DimsFound::Absent;
    }
    let a = skip_ws_x(line, i + 1);
    if !(a < line.len() && line[a] == '=') {
        return DimsFound::Absent;
    }
    let b = skip_ws_x(line, a + 1);
    let e1 = digits_end_x(line, b);
    if e1 == b || !(e1 < line.len() && line[e1] == ',') {
        return DimsFound::Absent;
    }
    let d = skip_ws_x(line, e1 + 1);
    if !(d < line.len() && eqi_x(line[d], 'y')) {
        return DimsFound::Absent;
    }
    let e = skip_ws_x(line, d + 1);
    if !(e < line.len() && line[e] == '=') {
        return DimsFound::Absent;
    }
    let f = skip_ws_x(line, e + 1);
    let e2 = digits_end_x(line, f);
    if e2 == f {
        return DimsFound::Absent;
    }
    proof {
        lemma_digits_run(line@, b as int, e1 as int);
        lemma_digits_run(line@, f as int, e2 as int);
        lemma_digits_val_nonneg(line@, b as int, e1 as int);
        lemma_digits_val_nonneg(line@, f as int, e2 as int);
    }
    let (xv, xover) = digits_val_x(line, b, e1);
    let (yv, yover) = digits_val_x(line, f, e2);
    if xover || yover {
        DimsFound::TooBig
    } else {
        DimsFound::At(xv, yv)
    }
}

/// Every character of the run `[i, digits_end(i))` is a digit.
proof fn lemma_digits_run(line: Seq<char>, i: int, j: int)
    requires
        0 <= i,
        j == digits_end(line, i),
        j <= line.len(),
    ensures
        forall|k: int| i <= k < j ==> is_digit(#[trigger] line[k]),
    decreases j - i,
{
    if i < j {
        lemma_digits_run(line, i + 1, j);
    }
}

/// A run of digits has a non-negative value.
proof fn lemma_digits_val_nonneg(line: Seq<char>, i: int, j: int)
    requires
        forall|k: int| i <= k < j ==> is_digit(#[trigger] line[k]),
    ensures
        digits_val(line, i, j) >= 0,
    decreases j - i,
{
    if j > i {
        lemma_digits_val_nonneg(line, i, j - 1);
    }
}

/// The leftmost dimensions clause of the line.
fn find_dims_x(line: &Vec<char>) -> (r: DimsFound)
    ensures
        match find_dims(line@, 0) {
            Option::None => r is Absent,
            Option::Some(xy) => if xy.0 > usize::MAX || xy.1 > usize::MAX {
                r is TooBig
            } else {
                r == (DimsFound::At(xy.0 as usize, xy.1 as usize))
            },
        },
        find_dims(line@, 0) is Some ==> (find_dims(line@, 0)->0).0 >= 0 && (find_dims(
            line@,
            0,
        )->0).1 >= 0,
{
    let n = line.len();
    for i in 0..n
        invariant
            n == line@.len(),
            find_dims(line@, 0) == find_dims(line@, i as int),
    {
        let d = dims_at_x(line, i);
        if !(matches!(d, DimsFound::Absent)) {
            return d;
        }
    }
    DimsFound::Absent
}

/// The rule clause starting exactly at `i`, if any: the bounds of its token.
fn rule_at_x(line: &Vec<char>, i: usize) -> (r: Option<(usize, usize)>)
    requires
        i <= line@.len(),
    ensures
        r is Some <==> rule_at(line@, i as int) is Some,
        r is Some ==> {
            let be = rule_at(line@, i as int)->0;
            (r->0).0 as int == be.0 && (r->0).1 as int == be.1
        },
        r is Some ==> (r->0).0 <= (r->0).1 <= line@.len(),
{
    if !(line.len() >= 4 && i <= line.len() - 4 && ((eqi_x(line[i], 't') && eqi_x(line[i + 1], 'y') && eqi_x(
        line[i + 2],
        'p',
    ) && eqi_x(line[i + 3], 'e')) || (eqi_x(line[i], 'r') && eqi_x(line[i + 1], 'u') && eqi_x(
        line[i + 2],
        'l',
    ) && eqi_x(line[i + 3], 'e')))) {
        return Option::None;
    }
    let a = skip_ws_x(line, i + 4);
    if !(a < line.len() && line[a] == '=') {
        return Option::None;
    }
    let b = skip_ws_x(line, a + 1);
    let e = word_end_x(line, b);
    if e == b {
        return Option::None;
    }
    Option::Some((b, e))
}

/// The leftmost rule clause of the line.
fn find_rule_x(line: &Vec<char>) -> (r: Option<(usize, usize)>)
    ensures
        r is Some <==> find_rule(line@, 0) is Some,
        r is Some ==> {
            let be = find_rule(line@, 0)->0;
            (r->0).0 as int == be.0 && (r->0).1 as int == be.1
        },
        r is Some ==> (r->0).0 <= (r->0).1 <= line@.len(),
{
    let n = line.len();
    for i in 0..n
        invariant
            n == line@.len(),
            find_rule(line@, 0) == find_rule(line@, i as int),
    {
        let ru = rule_at_x(line, i);
        if ru.is_some() {
            return ru;
        }
    }
    Option::None
}

/// Is the token `line[b..e)` the Conway rule `b3/s23`, either capitalisation?
fn token_is_conway_x(line: &Vec<char>, b: usize, e: usize) -> (r: bool)
    requires
        b <= e <= line@.len(),
    ensures
        r == token_is_conway(line@, b as int, e as int),
{
    e - b == 6 && eqi_x(line[b], 'b') && line[b + 1] == '3' && line[b + 2] == '/' && eqi_x(
        line[b + 3],
        's',
    ) && line[b + 4] == '2' && line[b + 5] == '3'
}

/// Does the line hold any board-description marker?
fn has_board_char_x(line: &Vec<char>) -> (r: bool)
    ensures
        r == has_board_char(line@, 0),
{
    let n = line.len();
    for i in 0..n
        invariant
            n == line@.len(),
            has_board_char(line@, 0) == has_board_char(line@, i as int),
    {
        if is_board_char_x(line[i]) {
            return true;
        }
    }
    false
}

/// Index of the first newline at or after `i`.
fn find_nl_x(chars: &Vec<char>, i: usize) -> (r: usize)
    requires
        i <= chars@.len(),
    ensures
        r as int == find_nl(chars@, i as int),
        i <= r <= chars@.len(),
{
    let n = chars.len();
    let mut r: usize = i;
    while r < n && chars[r] != '\n'
        invariant
            i <= r <= n,
            n == chars@.len(),
            find_nl(chars@, i as int) == find_nl(chars@, r as int),
        decreases n - r,
    {
        r += 1;
    }
    r
}

/// The matrix a vector of row vectors holds.
pub open spec fn rows_view(b: Vec<Vec<u8>>) -> Seq<Seq<u8>> {
    Seq::new(b@.len(), |i: int| b@[i]@)
}

/// Executable decoder state, mirroring `ParseSt`.
struct PState {
    board: Vec<Vec<u8>>,
    x: usize,
    y: usize,
    row: usize,
    col: usize,
}

impl PState {
    spec fn view_st(self) -> ParseSt {
        ParseSt {
            board: rows_view(self.board),
            x: self.x as nat,
            y: self.y as nat,
            row: self.row as nat,
            col: self.col as nat,
        }
    }
}

/// What processing one line of input did.
enum LineOutcome {
    Advance,
    Finished,
    FailRule,
    FailDims,
    FailFit,
}

/// `a + b`, saturating at `usize::MAX`.
fn sat_add_x(a: usize, b: usize) -> (r: usize)
    ensures
        r as nat == sat_add(a as nat, b as nat),
{
    match a.checked_add(b) {
        Option::Some(v) => v,
        Option::None => usize::MAX,
    }
}

/// Pushing a row extends the matrix view by that row.
proof fn lemma_rows_view_push(a: Vec<Vec<u8>>, b: Vec<Vec<u8>>, r: Vec<u8>)
    requires
        b@ == a@.push(r),
    ensures
        rows_view(b) == rows_view(a).push(r@),
{
    assert(rows_view(b) =~= rows_view(a).push(r@));
}

/// Appends `yv` rows of `xv` dead cells, as a dimensions clause demands.
fn push_zero_rows(board: &mut Vec<Vec<u8>>, yv: usize, xv: usize)
    ensures
        rows_view(*final(board)) == rows_view(*old(board)) + zero_rows(yv as nat, xv as nat),
{
    let ghost base = rows_view(*old(board));
    proof {
        assert(rows_view(*board) =~= base + zero_rows(0, xv as nat));
    }
    for k in 0..yv
        invariant
            rows_view(*board) == base + zero_rows(k as nat, xv as nat),
    {
        let mut rowv: Vec<u8> = Vec::new();
        for j in 0..xv
            invariant
                rowv@.len() == j,
                forall|t: int| 0 <= t < j ==> rowv@[t] == 0u8,
        {
            rowv.push(0u8);
        }
        proof {
            assert(rowv@ =~= zero_row(xv as nat));
        }
        let ghost before = *board;
        board.push(rowv);
        proof {
            lemma_rows_view_push(before, *board, rowv);
            assert(rows_view(*board) =~= base + zero_rows((k + 1) as nat, xv as nat));
        }
    }
}

/// Writes `cnt` alive cells at row `row`, columns `col .. col + cnt`.
fn write_alive_run(board: &mut Vec<Vec<u8>>, row: usize, col: usize, cnt: usize)
    requires
        row < old(board)@.len(),
        col + cnt <= old(board)@[row as int]@.len(),
    ensures
        rows_view(*final(board)) == rows_view(*old(board)).update(
            row as int,
            mark_row(rows_view(*old(board))[row as int], col as int, cnt as int),
        ),
{
    let ghost base = rows_view(*old(board));
    let rl = board[row].len();
    for t in 0..cnt
        invariant
            row < board@.len(),
            rl == board@[row as int]@.len(),
            col + cnt <= rl,
            board@.len() == base.len(),
            forall|i: int| 0 <= i < base.len() && i != row ==> board@[i]@ == base[i],
            board@[row as int]@.len() == base[row as int].len(),
            forall|j: int|
                0 <= j < base[row as int].len()
                    ==> board@[row as int]@[j] == (if col <= j < col + t {
                        1u8
                    } else {
                        base[row as int][j]
                    }),
    {
        let cell = &mut board[row][col + t];
        *cell = 1u8;
    }
    proof {
        let target = base.update(row as int, mark_row(base[row as int], col as int, cnt as int));
        assert forall|i: int| 0 <= i < base.len() implies #[trigger] rows_view(*board)[i]
            =~= target[i] by {
            if i == row {
                assert(rows_view(*board)[i] =~= mark_row(
                    base[row as int],
                    col as int,
                    cnt as int,
                ));
            } else {
                assert(rows_view(*board)[i] =~= base[i]);
            }
        }
        assert(rows_view(*board) =~= target);
    }
}

/// Processes one line of the input, advancing the decoder state exactly as
/// `step_line` says.
fn process_line(st: &mut PState, line: &Vec<char>) -> (out: LineOutcome)
    ensures
        match step_line(old(st).view_st(), line@) {
            LineStep::Go(st2) => out == LineOutcome::Advance && final(st).view_st() == st2,
            LineStep::Halt(po) => match po {
                ParseOut::Done(m) => out == LineOutcome::Finished && rows_view(final(st).board)
                    == m,
                ParseOut::BadRule => out == LineOutcome::FailRule,
                ParseOut::BadDims => out == LineOutcome::FailDims,
                ParseOut::NoFit => out == LineOutcome::FailFit,
            },
        },
{
    if line.len() > 0 && line[0] == '#' {
        return LineOutcome::Advance;
    }
    let d = find_dims_x(line);
    let ru = find_rule_x(line);
    let dims_present = !(matches!(d, DimsFound::Absent));
    if dims_present || ru.is_some() {
        if let Option::Some((b, e)) = ru {
            if !token_is_conway_x(line, b, e) {
                return LineOutcome::FailRule;
            }
        }
        match d {
            DimsFound::Absent => {
                proof {
                    assert(step_line(old(st).view_st(), line@) == LineStep::Go(
                        old(st).view_st(),
                    ));
                }
                return LineOutcome::Advance;
            },
            DimsFound::TooBig => {
                return LineOutcome::FailDims;
            },
            DimsFound::At(xv, yv) => {
                push_zero_rows(&mut st.board, yv, xv);
                st.x = xv;
                st.y = yv;
                proof {
                    let ov = old(st).view_st();
                    let d0 = find_dims(line@, 0);
                    assert(d0 is Some);
                    let st2 = ParseSt {
                        board: ov.board + zero_rows((d0->0).1 as nat, (d0->0).0 as nat),
                        x: (d0->0).0 as nat,
                        y: (d0->0).1 as nat,
                        ..ov
                    };
                    assert(step_line(ov, line@) == LineStep::Go(st2));
                    assert(st.view_st() == st2);
                }
                return LineOutcome::Advance;
            },
        }
    }
    if !has_board_char_x(line) {
        return LineOutcome::Advance;
    }
    if st.x == 0 || st.y == 0 {
        return LineOutcome::FailDims;
    }
    let ghost st0 = st.view_st();
    let n = line.len();
    let mut i: usize = 0;
    let mut accv: usize = 0;
    let mut accset: bool = false;
    let mut accover: bool = false;
    let ghost mut acc: Option<nat> = Option::None;
    while i < n
        invariant
            i <= n,
            n == line@.len(),
            accset <==> acc is Some,
            accset ==> (accover <==> acc->0 > usize::MAX),
            (accset && !accover) ==> accv as int == acc->0,
            st0 == old(st).view_st(),
            step_line(old(st).view_st(), line@) == run_tokens(st0, line@, 0, Option::None),
            run_tokens(st0, line@, 0, Option::None) == run_tokens(st.view_st(), line@, i as int, acc),
        decreases n - i,
    {
        let ghost pst = st.view_st();
        let ghost pacc = acc;
        let ch = line[i];
        if is_digit_x(ch) {
            let dv = digit_val_x(ch);
            proof {
                let v2: nat = match acc {
                    Option::None => digit_val(ch) as nat,
                    Option::Some(v0) => (v0 * 10 + digit_val(ch)) as nat,
                };
                if accset && accover {
                    assert(acc->0 * 10 >= acc->0 + acc->0) by (nonlinear_arith)
                        requires acc->0 > usize::MAX;
                }
                acc = Option::Some(v2);
            }
            if !accset {
                accv = dv as usize;
                accset = true;
                accover = false;
            } else if !accover {
                match accv.checked_mul(10) {
                    Option::Some(m) => {
                        match m.checked_add(dv as usize) {
                            Option::Some(v2) => {
                                accv = v2;
                            },
                            Option::None => {
                                accover = true;
                            },
                        }
                    },
                    Option::None => {
                        accover = true;
                    },
                }
            }
        } else {
            let cnt: usize = if !accset {
                1
            } else if accover {
                1
            } else {
                accv
            };
            proof {
                assert(cnt as nat == count_of(acc));
            }
            if eqi_x(ch, 'b') {
                st.col = sat_add_x(st.col, cnt);
                accset = false;
                accover = false;
                proof {
                    acc = Option::None;
                }
            } else if eqi_x(ch, 'o') {
                if cnt > 0 {
                    if !(st.row < st.board.len()) {
                        proof {
                            assert(run_tokens(pst, line@, i as int, pacc) == LineStep::Halt(
                                ParseOut::NoFit,
                            ));
                            assert(run_tokens(st0, line@, 0, Option::None) == LineStep::Halt(
                                ParseOut::NoFit,
                            ));
                            assert(st0 == old(st).view_st());
                            assert(step_line(old(st).view_st(), line@) == LineStep::Halt(
                                ParseOut::NoFit,
                            ));
                        }
                        return LineOutcome::FailFit;
                    }
                    let rlen = st.board[st.row].len();
                    if !(st.col <= rlen && cnt <= rlen - st.col) {
                        proof {
                            assert(run_tokens(pst, line@, i as int, pacc) == LineStep::Halt(
                                ParseOut::NoFit,
                            ));
                            assert(run_tokens(st0, line@, 0, Option::None) == LineStep::Halt(
                                ParseOut::NoFit,
                            ));
                            assert(st0 == old(st).view_st());
                            assert(step_line(old(st).view_st(), line@) == LineStep::Halt(
                                ParseOut::NoFit,
                            ));
                        }
                        return LineOutcome::FailFit;
                    }
                    write_alive_run(&mut st.board, st.row, st.col, cnt);
                    st.col = st.col + cnt;
                }
                accset = false;
                accover = false;
                proof {
                    acc = Option::None;
                }
            } else if ch == '$' {
                st.row = sat_add_x(st.row, cnt);
                st.col = 0;
                accset = false;
                accover = false;
                proof {
                    acc = Option::None;
                }
            } else if ch == '!' {
                proof {
                    assert(run_tokens(pst, line@, i as int, pacc) == LineStep::Halt(
                        ParseOut::Done(pst.board),
                    ));
                    assert(run_tokens(st0, line@, 0, Option::None) == LineStep::Halt(
                        ParseOut::Done(pst.board),
                    ));
                    assert(st0 == old(st).view_st());
                    assert(step_line(old(st).view_st(), line@) == LineStep::Halt(
                        ParseOut::Done(pst.board),
                    ));
                    assert(rows_view(st.board) == pst.board);
                }
                return LineOutcome::Finished;
            } else {
                accset = false;
                accover = false;
                proof {
                    acc = Option::None;
                }
            }
        }
        i += 1;
        proof {
            assert(run_tokens(pst, line@, i - 1, pacc) == run_tokens(
                st.view_st(),
                line@,
                i as int,
                acc,
            ));
        }
    }
    LineOutcome::Advance
}

/// A newline search started inside a suffix finds the same newline.
proof fn lemma_find_nl_shift(s: Seq<char>, p: int, i: int)
    requires
        0 <= p <= i <= s.len(),
    ensures
        find_nl(s.subrange(p, s.len() as int), i - p) == find_nl(s, i) - p,
    decreases s.len() - i,
{
    let suf = s.subrange(p, s.len() as int);
    if i < s.len() {
        assert(suf[i - p] == s[i]);
        if s[i] != '\n' {
            lemma_find_nl_shift(s, p, i + 1);
        }
    }
}

/// Parses an RLE pattern text into its 0/1 matrix.
///
/// Returns exactly what the grammar model `parse_rle` says: the decoded
/// matrix on success, and the decode failure otherwise — a non-Conway rule
/// token, missing or malformed dimensions, or alive cells that fall outside
/// the declared dimensions.
#[verifier::rlimit(60)]
pub fn parse_rle_string(rle_str: &str) -> (r: Result<Vec<Vec<u8>>, &'static str>)
    ensures
        match parse_rle(rle_str@) {
            ParseOut::Done(m) => r is Ok && rows_view(r->Ok_0) == m,
            ParseOut::BadRule => r is Err && r->Err_0@
                == "Specified life type not Conway! Cannot play config."@,
            ParseOut::BadDims => r is Err && r->Err_0@ == "Invalid board dimensions!"@,
            ParseOut::NoFit => r is Err && r->Err_0@
                == "Pattern content does not fit the declared dimensions!"@,
        },
{
    let chars = to_char_vec(rle_str);
    let n = chars.len();
    let mut st = PState { board: Vec::new(), x: 0, y: 0, row: 0, col: 0 };
    proof {
        assert(rows_view(st.board) =~= Seq::<Seq<u8>>::empty());
        assert(st.view_st() == init_st());
        assert(chars@.subrange(0, n as int) =~= chars@);
    }
    let mut p: usize = 0;
    while p < n
        invariant
            p <= n,
            n == chars@.len(),
            chars@ == rle_str@,
            parse_rle(rle_str@) == run_lines(
                st.view_st(),
                split_lines(chars@.subrange(p as int, n as int)),
            ),
        decreases n - p,
    {
        let k = find_nl_x(&chars, p);
        let line_end = if k < n && k > p && chars[k - 1] == '\r' {
            k - 1
        } else {
            k
        };
        let mut line: Vec<char> = Vec::new();
        let mut t = p;
        while t < line_end
            invariant
                p <= t <= line_end <= n,
                n == chars@.len(),
                line@ == chars@.subrange(p as int, t as int),
            decreases line_end - t,
        {
            line.push(chars[t]);
            proof {
                assert(line@ =~= chars@.subrange(p as int, t + 1));
            }
            t += 1;
        }
        let ghost suf = chars@.subrange(p as int, n as int);
        let ghost next_p: int = if k < n {
            k + 1
        } else {
            n as int
        };
        proof {
            lemma_find_nl_shift(chars@, p as int, p as int);
            assert(find_nl(suf, 0) == k - p);
            if k == n {
                assert(line@ =~= suf);
                assert(split_lines(suf) == seq![line@]);
                assert(split_lines(chars@.subrange(next_p, n as int)) =~= Seq::<
                    Seq<char>,
                >::empty());
                assert(split_lines(suf) =~= seq![line@] + split_lines(
                    chars@.subrange(next_p, n as int),
                ));
            } else {
                let raw = suf.subrange(0, k - p);
                assert(raw =~= chars@.subrange(p as int, k as int));
                let ln = if raw.len() > 0 && raw[raw.len() - 1] == '\r' {
                    raw.drop_last()
                } else {
                    raw
                };
                assert(raw.len() > 0 && raw[raw.len() - 1] == '\r' <==> (k < n && k > p
                    && chars@[k - 1] == '\r'));
                assert(line@ =~= ln);
                assert(suf.subrange(k - p + 1, suf.len() as int) =~= chars@.subrange(
                    next_p,
                    n as int,
                ));
                assert(split_lines(suf) == seq![line@] + split_lines(
                    chars@.subrange(next_p, n as int),
                ));
            }
            assert((seq![line@] + split_lines(chars@.subrange(next_p, n as int)))[0] == line@);
            assert((seq![line@] + split_lines(chars@.subrange(next_p, n as int))).drop_first()
                =~= split_lines(chars@.subrange(next_p, n as int)));
        }
        let out = process_line(&mut st, &line);
        match out {
            LineOutcome::Advance => {
                p = if k < n {
                    k + 1
                } else {
                    n
                };
            },
            LineOutcome::Finished => {
                return Result::Ok(st.board);
            },
            LineOutcome::FailRule => {
                return Result::Err("Specified life type not Conway! Cannot play config.");
            },
            LineOutcome::FailDims => {
                return Result::Err("Invalid board dimensions!");
            },
            LineOutcome::FailFit => {
                return Result::Err("Pattern content does not fit the declared dimensions!");
            },
        }
    }
    proof {
        assert(chars@.subrange(p as int, n as int) =~= Seq::<char>::empty());
        assert(split_lines(chars@.subrange(p as int, n as int)) =~= Seq::<Seq<char>>::empty());
    }
    Result::Ok(st.board)
}

// ---------------------------------------------------------------------------
// Configurations
// ---------------------------------------------------------------------------
/// Does the pattern have more rows than the board?
pub open spec fn too_many_rows(m: Seq<Seq<u8>>, rows: int) -> bool {
    m.len() > rows
}

/// Does some pattern row have more columns than the board?
pub open spec fn too_many_cols(m: Seq<Seq<u8>>, cols: int) -> bool {
    exists|i: int| 0 <= i < m.len() && (#[trigger] m[i]).len() > cols
}

/// Is `(r, c)` an alive cell of the pattern?
pub open spec fn pattern_alive(m: Seq<Seq<u8>>, r: int, c: int) -> bool {
    0 <= r < m.len() && 0 <= c < m[r].len() && m[r][c] != 0
}

/// A board configuration: declared dimensions and a dense row-major matrix
/// of 0/1 values, value 1 meaning alive.
pub struct Configuration {
    pub rows: usize,
    pub cols: usize,
    pub board: Vec<Vec<u8>>,
}

impl Configuration {
    /// Decodes an RLE pattern text into a configuration.  Reading the text
    /// from a file is the caller's business; the decode itself is exactly
    /// what the grammar model `parse_rle` says.  The declared dimensions are
    /// taken from the decoded matrix: its row count, and the width of its
    /// first row (zero for an empty matrix).
    pub fn load_rle_config(rle_text: &str) -> (r: Result<Configuration, &'static str>)
        ensures
            match parse_rle(rle_text@) {
                ParseOut::Done(m) => {
                    &&& r is Ok
                    &&& rows_view(r->Ok_0.board) == m
                    &&& r->Ok_0.rows == m.len()
                    &&& r->Ok_0.cols == (if m.len() > 0 {
                        m[0].len()
                    } else {
                        0
                    })
                },
                ParseOut::BadRule => r is Err && r->Err_0@
                    == "Specified life type not Conway! Cannot play config."@,
                ParseOut::BadDims => r is Err && r->Err_0@ == "Invalid board dimensions!"@,
                ParseOut::NoFit => r is Err && r->Err_0@
                    == "Pattern content does not fit the declared dimensions!"@,
            },
    {
        match parse_rle_string(rle_text) {
            Result::Ok(vec) => {
                let rows = vec.len();
                let cols = if vec.len() > 0 {
                    vec[0].len()
                } else {
                    0
                };
                Result::Ok(Configuration { rows, cols, board: vec })
            },
            Result::Err(e) => Result::Err(e),
        }
    }

    /// Paints this configuration onto `board`.
    ///
    /// Fails, leaving the board untouched, when the pattern has more rows
    /// than the board or some pattern row has more columns than the board.
    /// On success the board is cleared and exactly the pattern's alive cells
    /// are set alive; pending states are not touched.
    pub fn apply_config(&self, board: &mut Board) -> (r: Result<(), &'static str>)
        requires
            old(board).wf(),
        ensures
            final(board).wf(),
            final(board).rows == old(board).rows,
            final(board).cols == old(board).cols,
            r is Err <==> too_many_rows(rows_view(self.board), old(board).rows as int)
                || too_many_cols(rows_view(self.board), old(board).cols as int),
            r is Err ==> *final(board) == *old(board),
            too_many_rows(rows_view(self.board), old(board).rows as int) ==> r is Err && r->Err_0@
                == "This configuration requires a larger board (more rows)!"@,
            (!too_many_rows(rows_view(self.board), old(board).rows as int) && too_many_cols(
                rows_view(self.board),
                old(board).cols as int,
            )) ==> r is Err && r->Err_0@
                == "This configuration requires a larger board (more cols)!"@,
            r is Ok ==> forall|i: int, j: int|
                0 <= i < old(board).rows && 0 <= j < old(board).cols
                    ==> ((#[trigger] final(board).cell_at(i, j)).is_alive <==> pattern_alive(
                        rows_view(self.board),
                        i,
                        j,
                    )) && final(board).cell_at(i, j).pending_state == old(board).cell_at(
                        i,
                        j,
                    ).pending_state,
    {
        let ghost m = rows_view(self.board);
        if self.board.len() > board.rows {
            return Result::Err("This configuration requires a larger board (more rows)!");
        }
        let nrows = self.board.len();
        for i in 0..nrows
            invariant
                nrows == self.board@.len(),
                nrows <= board.rows,
                m == rows_view(self.board),
                *board == *old(board),
                board.wf(),
                forall|t: int| 0 <= t < i ==> (#[trigger] m[t]).len() <= board.cols,
        {
            if self.board[i].len() > board.cols {
                proof {
                    assert(m[i as int].len() > board.cols);
                }
                return Result::Err("This configuration requires a larger board (more cols)!");
            }
        }
        board.clear();
        for i in 0..nrows
            invariant
                nrows == self.board@.len(),
                nrows <= board.rows,
                m == rows_view(self.board),
                board.wf(),
                board.rows == old(board).rows,
                board.cols == old(board).cols,
                forall|t: int| 0 <= t < nrows ==> (#[trigger] m[t]).len() <= board.cols,
                forall|t: int, u: int|
                    0 <= t < board.rows && 0 <= u < board.cols
                        ==> (#[trigger] board.cell_at(t, u)).pending_state == old(
                            board,
                        ).cell_at(t, u).pending_state,
                forall|t: int, u: int|
                    0 <= t < board.rows && 0 <= u < board.cols && t < i
                        ==> ((#[trigger] board.cell_at(t, u)).is_alive <==> pattern_alive(m, t, u)),
                forall|t: int, u: int|
                    0 <= t < board.rows && 0 <= u < board.cols && t >= i
                        ==> !(#[trigger] board.cell_at(t, u)).is_alive,
        {
            let rowlen = self.board[i].len();
            for j in 0..rowlen
                invariant
                    nrows == self.board@.len(),
                    nrows <= board.rows,
                    i < nrows,
                    m == rows_view(self.board),
                    rowlen == m[i as int].len(),
                    board.wf(),
                    board.rows == old(board).rows,
                    board.cols == old(board).cols,
                    forall|t: int| 0 <= t < nrows ==> (#[trigger] m[t]).len() <= board.cols,
                    forall|t: int, u: int|
                        0 <= t < board.rows && 0 <= u < board.cols
                            ==> (#[trigger] board.cell_at(t, u)).pending_state == old(
                                board,
                            ).cell_at(t, u).pending_state,
                    forall|t: int, u: int|
                        0 <= t < board.rows && 0 <= u < board.cols && (t < i || (t == i && u < j))
                            ==> ((#[trigger] board.cell_at(t, u)).is_alive <==> pattern_alive(
                                m,
                                t,
                                u,
                            )),
                    forall|t: int, u: int|
                        0 <= t < board.rows && 0 <= u < board.cols && (t > i || (t == i && u >= j))
                            ==> !(#[trigger] board.cell_at(t, u)).is_alive,
            {
                if self.board[i][j] != 0 {
                    board.set_alive(i, j, true);
                }
            }
        }
        Result::Ok(())
    }
}

// ---------------------------------------------------------------------------
// Laws of the decoder
// ---------------------------------------------------------------------------
/// A line the decoder passes over without effect: a comment line, or a line
/// holding no dimensions clause, no rule clause and no board marker.
pub open spec fn is_skipped_line(line: Seq<char>) -> bool {
    (line.len() > 0 && line[0] == '#') || (find_dims(line, 0) is None && find_rule(line, 0)
        is None && !has_board_char(line, 0))
}

/// A board-description line: not a comment, no header clause, but at least
/// one board marker.
pub open spec fn is_board_desc_line(line: Seq<char>) -> bool {
    !(line.len() > 0 && line[0] == '#') && find_dims(line, 0) is None && find_rule(line, 0)
        is None && has_board_char(line, 0)
}

proof fn lemma_run_lines_board_first(st: ParseSt, lines: Seq<Seq<char>>, i: int)
    requires
        st.x == 0 || st.y == 0,
        0 <= i < lines.len(),
        is_board_desc_line(lines[i]),
        forall|j: int| 0 <= j < i ==> is_skipped_line(#[trigger] lines[j]),
    ensures
        run_lines(st, lines) == ParseOut::BadDims,
    decreases i,
{
    if i == 0 {
        assert(step_line(st, lines[0]) == LineStep::Halt(ParseOut::BadDims));
    } else {
        assert(is_skipped_line(lines[0]));
        assert(step_line(st, lines[0]) == LineStep::Go(st));
        assert forall|j: int| 0 <= j < i - 1 implies is_skipped_line(
            #[trigger] lines.drop_first()[j],
        ) by {
            assert(lines.drop_first()[j] == lines[j + 1]);
        }
        assert(lines.drop_first()[i - 1] == lines[i]);
        lemma_run_lines_board_first(st, lines.drop_first(), i - 1);
    }
}

/// A board-description line that comes before any line that could establish
/// dimensions fails the whole decode with the dimensions error.
pub proof fn lemma_board_desc_before_dims(s: Seq<char>, i: int)
    requires
        0 <= i < split_lines(s).len(),
        is_board_desc_line(split_lines(s)[i]),
        forall|j: int| 0 <= j < i ==> is_skipped_line(#[trigger] split_lines(s)[j]),
    ensures
        parse_rle(s) == ParseOut::BadDims,
{
    lemma_run_lines_board_first(init_st(), split_lines(s), i);
}

// ---------------------------------------------------------------------------
// The glider
// ---------------------------------------------------------------------------
/// The standard glider as a 0/1 matrix.
pub open spec fn glider_matrix() -> Seq<Seq<u8>> {
    seq![seq![0u8, 1u8, 0u8], seq![0u8, 0u8, 1u8], seq![1u8, 1u8, 1u8]]
}

/// Round trip of the glider: a board of at least 3 by 3 cells onto which the
/// glider matrix has been applied holds exactly the five glider cells alive —
/// (0,1), (1,2), (2,0), (2,1) and (2,2) — and nothing else.
pub proof fn lemma_glider_round_trip(b: Board)
    requires
        b.wf(),
        b.rows >= 3,
        b.cols >= 3,
        forall|r: int, c: int|
            0 <= r < b.rows && 0 <= c < b.cols
                ==> ((#[trigger] b.cell_at(r, c)).is_alive <==> pattern_alive(
                    glider_matrix(),
                    r,
                    c,
                )),
    ensures
        forall|r: int, c: int|
            0 <= r < b.rows && 0 <= c < b.cols
                ==> ((#[trigger] b.cell_at(r, c)).is_alive <==> ((r == 0 && c == 1) || (r == 1
                    && c == 2) || (r == 2 && c == 0) || (r == 2 && c == 1) || (r == 2 && c
                    == 2))),
{
    assert forall|r: int, c: int| 0 <= r < b.rows && 0 <= c < b.cols implies (pattern_alive(
        glider_matrix(),
        r,
        c,
    ) <==> ((r == 0 && c == 1) || (r == 1 && c == 2) || (r == 2 && c == 0) || (r == 2 && c == 1)
        || (r == 2 && c == 2))) by {
        let g = glider_matrix();
        assert(g.len() == 3);
        if 0 <= r < 3 {
            assert(g[r].len() == 3);
        }
    }
}

// ---------------------------------------------------------------------------
// The glider across generations
// ---------------------------------------------------------------------------
/// A grid of exactly `rows` rows of `cols` cells each.
pub open spec fn uniform_grid(g: Seq<Seq<bool>>, rows: int, cols: int) -> bool {
    g.len() == rows && forall|i: int| 0 <= i < rows ==> (#[trigger] g[i]).len() == cols
}

/// The five cells of the glider, as decoded from its matrix.
pub open spec fn glider_gen0(r: int, c: int) -> bool {
    ||| (r == 0 && c == 1)
    ||| (r == 1 && c == 2)
    ||| (r == 2 && c == 0)
    ||| (r == 2 && c == 1)
    ||| (r == 2 && c == 2)
}

spec fn glider_gen1(r: int, c: int) -> bool {
    ||| (r == 1 && c == 0)
    ||| (r == 1 && c == 2)
    ||| (r == 2 && c == 1)
    ||| (r == 2 && c == 2)
    ||| (r == 3 && c == 1)
}

proof fn lemma_glider_step_a(g: Seq<Seq<bool>>, rows: int, cols: int)
    requires
        uniform_grid(g, rows, cols),
        rows >= 4,
        cols >= 4,
        forall|r: int, c: int|
            0 <= r < rows && 0 <= c < cols ==> ((#[trigger] g[r][c]) <==> glider_gen0(r, c)),
    ensures
        forall|r: int, c: int|
            0 <= r < rows && 0 <= c < cols ==> ((#[trigger] step_grid(g)[r][c]) <==> glider_gen1(
                r,
                c,
            )),
{
    assert forall|r: int, c: int|
        0 <= r < rows && 0 <= c < cols implies ((#[trigger] step_grid(g)[r][c]) <==> glider_gen1(
        r,
        c,
    )) by {
        assert(step_grid(g)[r][c] == next_state(g[r][c], neighbor_count(g, r, c)));
    }
}

spec fn glider_gen2(r: int, c: int) -> bool {
    ||| (r == 1 && c == 2)
    ||| (r == 2 && c == 0)
    ||| (r == 2 && c == 2)
    ||| (r == 3 && c == 1)
    ||| (r == 3 && c == 2)
}

spec fn glider_gen3(r: int, c: int) -> bool {
    ||| (r == 1 && c == 1)
    ||| (r == 2 && c == 2)
    ||| (r == 2 && c == 3)
    ||| (r == 3 && c == 1)
    ||| (r == 3 && c == 2)
}

/// One generation keeps the grid's shape.
proof fn lemma_uniform_step(g: Seq<Seq<bool>>, rows: int, cols: int)
    requires
        uniform_grid(g, rows, cols),
    ensures
        uniform_grid(step_grid(g), rows, cols),
{
    assert forall|i: int| 0 <= i < rows implies (#[trigger] step_grid(g)[i]).len() == cols by {
        assert(g[i].len() == cols);
    }
}

proof fn lemma_glider_step_b(g: Seq<Seq<bool>>, rows: int, cols: int)
    requires
        uniform_grid(g, rows, cols),
        rows >= 4,
        cols >= 4,
        forall|r: int, c: int|
            0 <= r < rows && 0 <= c < cols ==> ((#[trigger] g[r][c]) <==> glider_gen1(r, c)),
    ensures
        forall|r: int, c: int|
            0 <= r < rows && 0 <= c < cols ==> ((#[trigger] step_grid(g)[r][c]) <==> glider_gen2(
                r,
                c,
            )),
{
    assert forall|r: int, c: int|
        0 <= r < rows && 0 <= c < cols implies ((#[trigger] step_grid(g)[r][c]) <==> glider_gen2(
        r,
        c,
    )) by {
        assert(step_grid(g)[r][c] == next_state(g[r][c], neighbor_count(g, r, c)));
    }
}

proof fn lemma_glider_step_c(g: Seq<Seq<bool>>, rows: int, cols: int)
    requires
        uniform_grid(g, rows, cols),
        rows >= 4,
        cols >= 4,
        forall|r: int, c: int|
            0 <= r < rows && 0 <= c < cols ==> ((#[trigger] g[r][c]) <==> glider_gen2(r, c)),
    ensures
        forall|r: int, c: int|
            0 <= r < rows && 0 <= c < cols ==> ((#[trigger] step_grid(g)[r][c]) <==> glider_gen3(
                r,
                c,
            )),
{
    assert forall|r: int, c: int|
        0 <= r < rows && 0 <= c < cols implies ((#[trigger] step_grid(g)[r][c]) <==> glider_gen3(
        r,
        c,
    )) by {
        assert(step_grid(g)[r][c] == next_state(g[r][c], neighbor_count(g, r, c)));
    }
}

proof fn lemma_glider_step_d(g: Seq<Seq<bool>>, rows: int, cols: int)
    requires
        uniform_grid(g, rows, cols),
        rows >= 4,
        cols >= 4,
        forall|r: int, c: int|
            0 <= r < rows && 0 <= c < cols ==> ((#[trigger] g[r][c]) <==> glider_gen3(r, c)),
    ensures
        forall|r: int, c: int|
            0 <= r < rows && 0 <= c < cols ==> ((#[trigger] step_grid(g)[r][c]) <==> glider_gen0(
                r - 1,
                c - 1,
            )),
{
    assert forall|r: int, c: int|
        0 <= r < rows && 0 <= c < cols implies ((#[trigger] step_grid(g)[r][c]) <==> glider_gen0(
        r - 1,
        c - 1,
    )) by {
        assert(step_grid(g)[r][c] == next_state(g[r][c], neighbor_count(g, r, c)));
    }
}

/// The classic glider invariant: four generations reproduce the same shape
/// translated by (1, 1).  On any board of at least 4 by 4 cells holding
/// exactly the glider's five cells, four generation steps leave exactly
/// those five cells alive again, each one row down and one column right.
pub proof fn lemma_glider_four_generations(g: Seq<Seq<bool>>, rows: int, cols: int)
    requires
        uniform_grid(g, rows, cols),
        rows >= 4,
        cols >= 4,
        forall|r: int, c: int|
            0 <= r < rows && 0 <= c < cols ==> ((#[trigger] g[r][c]) <==> glider_gen0(r, c)),
    ensures
        forall|r: int, c: int|
            0 <= r < rows && 0 <= c < cols ==> ((#[trigger] step_grid(step_grid(step_grid(
                step_grid(g),
            )))[r][c]) <==> glider_gen0(r - 1, c - 1)),
{
    lemma_uniform_step(g, rows, cols);
    lemma_uniform_step(step_grid(g), rows, cols);
    lemma_uniform_step(step_grid(step_grid(g)), rows, cols);
    lemma_glider_step_a(g, rows, cols);
    lemma_glider_step_b(step_grid(g), rows, cols);
    lemma_glider_step_c(step_grid(step_grid(g)), rows, cols);
    lemma_glider_step_d(step_grid(step_grid(step_grid(g))), rows, cols);
}

} // verus!
