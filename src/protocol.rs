//! The Yixin/Gomocup text protocol: commands sent to an engine and the
//! responses it writes back, one CRLF-terminated line at a time.
use vstd::prelude::*;
use vstd::string::StringSliceAdditionalSpecFns;
use vstd::utf8::*;
use vstd::string::StringExecFns;

verus! {

pub const COMMA: u8 = 44;

/// ASCII decimal text of a number, most significant digit first.
pub open spec fn dec_text(n: nat) -> Seq<u8>
    decreases n,
{
    if n < 10 {
        seq![(48 + n) as u8]
    } else {
        dec_text(n / 10).push((48 + n % 10) as u8)
    }
}

/// The `x,y` text of a board coordinate.
pub open spec fn coord_text(p: (u8, u8)) -> Seq<u8> {
    dec_text(p.0 as nat) + seq![COMMA] + dec_text(p.1 as nat)
}

pub open spec fn crlf() -> Seq<u8> {
    seq![13u8, 10u8]
}

/// Side number of the stone placed at ply `i`: 1 for the first mover.
pub open spec fn side_of(i: int) -> u8 {
    if i % 2 == 0 {
        1
    } else {
        2
    }
}

/// The `x,y,side` lines listing `moves[0..n]`.
pub open spec fn board_lines(moves: Seq<(u8, u8)>, n: int) -> Seq<u8>
    decreases n,
{
    if n <= 0 {
        Seq::empty()
    } else {
        board_lines(moves, n - 1) + coord_text(moves[n - 1]) + seq![COMMA] + dec_text(
            side_of(n - 1) as nat,
        ) + crlf()
    }
}

/// Appends `t` to `out`.
fn push_text(out: &mut Vec<u8>, t: &[u8])
    ensures
        final(out)@ == old(out)@ + t@,
{
    let mut i: usize = 0;
    while i < t.len()
        invariant
            i <= t@.len(),
            out@ == old(out)@ + t@.subrange(0, i as int),
        decreases t@.len() - i,
    {
        out.push(t[i]);
        i = i + 1;
        assert(t@.subrange(0, i as int) == t@.subrange(0, i - 1 as int).push(t@[i - 1]));
    }
    assert(t@.subrange(0, i as int) == t@);
}

/// Appends the decimal text of `n` to `out`.
fn push_dec(out: &mut Vec<u8>, n: u8)
    ensures
        final(out)@ == old(out)@ + dec_text(n as nat),
{
    reveal_with_fuel(dec_text, 3);
    if n < 10 {
        out.push(48 + n);
    } else if n < 100 {
        out.push(48 + n / 10);
        out.push(48 + n % 10);
        assert(dec_text(n as nat) == seq![(48 + n / 10) as u8, (48 + n % 10) as u8]);
    } else {
        out.push(48 + n / 100);
        out.push(48 + (n / 10) % 10);
        out.push(48 + n % 10);
        assert(dec_text(n as nat) == seq![
            (48 + n / 100) as u8,
            (48 + (n / 10) % 10) as u8,
            (48 + n % 10) as u8,
        ]);
    }
}

/// Appends the `x,y` text of `p` to `out`.
fn push_coord(out: &mut Vec<u8>, p: (u8, u8))
    ensures
        final(out)@ == old(out)@ + coord_text(p),
{
    push_dec(out, p.0);
    out.push(COMMA);
    push_dec(out, p.1);
    assert(final(out)@ =~= old(out)@ + coord_text(p));
}

/// Commands sent by the manager to the engine.
#[derive(Copy, Clone, PartialEq, Eq, PartialOrd, Ord)]
pub enum Command<'a> {
    Start(u8),
    Begin,
    Stop,
    ShowForbidden,
    HashClear,
    Turn((u8, u8)),
    Board(&'a [(u8, u8)]),
    YixinBoard(&'a [(u8, u8)]),
    Info { key: &'a str, value: &'a str },
    End,
    Restart,
}

pub open spec fn text_start() -> Seq<u8> {
    seq![83u8, 84, 65, 82, 84]
}

pub open spec fn text_begin() -> Seq<u8> {
    seq![66u8, 69, 71, 73, 78]
}

pub open spec fn text_stop() -> Seq<u8> {
    seq![121u8, 120, 115, 116, 111, 112]
}

pub open spec fn text_show_forbidden() -> Seq<u8> {
    seq![121u8, 120, 115, 104, 111, 119, 102, 111, 114, 98, 105, 100]
}

pub open spec fn text_hash_clear() -> Seq<u8> {
    seq![121u8, 120, 104, 97, 115, 104, 99, 108, 101, 97, 114]
}

pub open spec fn text_turn() -> Seq<u8> {
    seq![84u8, 85, 82, 78]
}

pub open spec fn text_board() -> Seq<u8> {
    seq![66u8, 79, 65, 82, 68]
}

pub open spec fn text_yixin_board() -> Seq<u8> {
    seq![121u8, 120, 98, 111, 97, 114, 100]
}

pub open spec fn text_done() -> Seq<u8> {
    seq![68u8, 79, 78, 69]
}

pub open spec fn text_info() -> Seq<u8> {
    seq![73u8, 78, 70, 79]
}

pub open spec fn text_end() -> Seq<u8> {
    seq![69u8, 78, 68]
}

pub open spec fn text_restart() -> Seq<u8> {
    seq![82u8, 69, 83, 84, 65, 82, 84]
}

pub open spec fn space() -> Seq<u8> {
    seq![32u8]
}

/// A board block: its header line, one line per move, then `DONE`.
pub open spec fn board_block(header: Seq<u8>, moves: Seq<(u8, u8)>) -> Seq<u8> {
    header + crlf() + board_lines(moves, moves.len() as int) + text_done() + crlf()
}

/// The bytes written to the engine for a command.
pub open spec fn command_wire(c: Command) -> Seq<u8> {
    match c {
        Command::Start(size) => text_start() + space() + dec_text(size as nat) + crlf(),
        Command::Begin => text_begin() + crlf(),
        Command::Stop => text_stop() + crlf(),
        Command::ShowForbidden => text_show_forbidden() + crlf(),
        Command::HashClear => text_hash_clear() + crlf(),
        Command::Turn(p) => text_turn() + space() + coord_text(p) + crlf(),
        Command::Board(moves) => board_block(text_board(), moves@),
        Command::YixinBoard(moves) => board_block(text_yixin_board(), moves@),
        Command::Info { key, value } => text_info() + space() + key.spec_bytes() + space()
            + value.spec_bytes() + crlf(),
        Command::End => text_end() + crlf(),
        Command::Restart => text_restart() + crlf(),
    }
}

/// Whether the engine answers a command. The engine stays silent after
/// `INFO`, `END`, `yxstop`, `yxhashclear` and a `yxboard` block.
pub open spec fn spec_expects_response(c: Command) -> bool {
    !(c is Info || c is End || c is Stop || c is HashClear || c is YixinBoard)
}

fn push_crlf(out: &mut Vec<u8>)
    ensures
        final(out)@ == old(out)@ + crlf(),
{
    out.push(13);
    out.push(10);
    assert(final(out)@ =~= old(out)@ + crlf());
}

/// Appends the move lines and the closing `DONE` line of a board block.
fn push_board(out: &mut Vec<u8>, header: &[u8], moves: &[(u8, u8)])
    ensures
        final(out)@ == old(out)@ + board_block(header@, moves@),
{
    push_text(out, header);
    push_crlf(out);
    let ghost start = out@;
    let mut i: usize = 0;
    while i < moves.len()
        invariant
            i <= moves@.len(),
            start == old(out)@ + header@ + crlf(),
            out@ == start + board_lines(moves@, i as int),
        decreases moves@.len() - i,
    {
        push_coord(out, moves[i]);
        out.push(COMMA);
        let side: u8 = if i % 2 == 0 {
            1
        } else {
            2
        };
        push_dec(out, side);
        push_crlf(out);
        i = i + 1;
        assert(out@ =~= start + board_lines(moves@, i as int));
    }
    push_text(out, &[68u8, 79, 78, 69]);
    push_crlf(out);
    assert(final(out)@ =~= old(out)@ + board_block(header@, moves@));
}

impl<'a> Command<'a> {
    /// Whether the engine writes a response to this command.
    pub fn expects_response(&self) -> (r: bool)
        ensures
            r == spec_expects_response(*self),
    {
        match self {
            Command::Info { .. } | Command::End | Command::Stop | Command::HashClear
            | Command::YixinBoard(_) => false,
            _ => true,
        }
    }

    /// The bytes to write to the engine, each line ending in CRLF.
    pub fn to_wire(&self) -> (r: Vec<u8>)
        ensures
            r@ == command_wire(*self),
    {
        let mut out: Vec<u8> = Vec::new();
        match self {
            Command::Start(size) => {
                push_text(&mut out, &[83u8, 84, 65, 82, 84, 32]);
                push_dec(&mut out, *size);
            },
            Command::Begin => push_text(&mut out, &[66u8, 69, 71, 73, 78]),
            Command::Stop => push_text(&mut out, &[121u8, 120, 115, 116, 111, 112]),
            Command::ShowForbidden => push_text(
                &mut out,
                &[121u8, 120, 115, 104, 111, 119, 102, 111, 114, 98, 105, 100],
            ),
            Command::HashClear => push_text(
                &mut out,
                &[121u8, 120, 104, 97, 115, 104, 99, 108, 101, 97, 114],
            ),
            Command::Turn(p) => {
                push_text(&mut out, &[84u8, 85, 82, 78, 32]);
                push_coord(&mut out, *p);
            },
            Command::Board(moves) => {
                push_board(&mut out, &[66u8, 79, 65, 82, 68], moves);
                assert(out@ =~= command_wire(*self));
                return out;
            },
            Command::YixinBoard(moves) => {
                push_board(&mut out, &[121u8, 120, 98, 111, 97, 114, 100], moves);
                assert(out@ =~= command_wire(*self));
                return out;
            },
            Command::Info { key, value } => {
                push_text(&mut out, &[73u8, 78, 70, 79, 32]);
                push_text(&mut out, key.as_bytes());
                out.push(32);
                push_text(&mut out, value.as_bytes());
            },
            Command::End => push_text(&mut out, &[69u8, 78, 68]),
            Command::Restart => push_text(&mut out, &[82u8, 69, 83, 84, 65, 82, 84]),
        }
        push_crlf(&mut out);
        assert(out@ =~= command_wire(*self));
        out
    }
}

/// Why a response line could not be read.
#[derive(Debug)]
pub enum ResponseParseErr {
    MissingCommand,
    MissingArgument,
    MissingCoordinate,
    InvalidCoordinate(String),
}

/// Responses from the engine to the manager.
#[derive(Debug)]
pub enum Response {
    Acknowledged,
    Move((u8, u8)),
    Suggest((u8, u8)),
    Debug(String),
    Error(String),
    Unknown(String),
    Message(String),
    Empty,
}

/// ASCII whitespace, the separator between the tokens of a line.
pub open spec fn is_space(c: u8) -> bool {
    c == 9 || c == 10 || c == 11 || c == 12 || c == 13 || c == 32
}

/// The first index at or after `i` that does not hold whitespace.
pub open spec fn skip_space(b: Seq<u8>, i: int) -> int
    decreases b.len() - i,
{
    if 0 <= i < b.len() && is_space(b[i]) {
        skip_space(b, i + 1)
    } else {
        i
    }
}

/// The first index at or after `i` that holds whitespace, or the end.
pub open spec fn token_end(b: Seq<u8>, i: int) -> int
    decreases b.len() - i,
{
    if 0 <= i < b.len() && !is_space(b[i]) {
        token_end(b, i + 1)
    } else {
        i
    }
}

/// The words of `b` from `i` on, joined by single spaces. `gap` says that
/// a space separates the next word from one already written.
pub open spec fn words(b: Seq<u8>, i: int, gap: bool) -> Seq<u8>
    decreases b.len() - i,
{
    if i < 0 || i >= b.len() {
        Seq::empty()
    } else if is_space(b[i]) {
        words(b, i + 1, true)
    } else {
        (if gap {
            seq![32u8]
        } else {
            Seq::<u8>::empty()
        }) + seq![b[i]] + words(b, i + 1, false)
    }
}

/// Whether `s` holds `t` as text.
pub open spec fn holds_bytes(s: String, t: Seq<u8>) -> bool {
    encode_utf8(s@) == t
}

/// The first index of a comma in `b[i..e]`, or `e`.
pub open spec fn find_comma(b: Seq<u8>, i: int, e: int) -> int
    decreases e - i,
{
    if i < e && b[i] != COMMA {
        find_comma(b, i + 1, e)
    } else {
        i
    }
}

pub open spec fn ascii_lower(c: u8) -> u8 {
    if 65 <= c <= 90 {
        (c + 32) as u8
    } else {
        c
    }
}

pub open spec fn lower(t: Seq<u8>) -> Seq<u8> {
    t.map_values(|c: u8| ascii_lower(c))
}

pub open spec fn is_digit(c: u8) -> bool {
    48 <= c <= 57
}

/// The value of a string of decimal digits.
pub open spec fn digits_value(t: Seq<u8>) -> nat
    decreases t.len(),
{
    if t.len() == 0 {
        0
    } else {
        digits_value(t.drop_last()) * 10 + (t.last() - 48) as nat
    }
}

/// The digits of an unsigned number's text, after an optional `+`.
pub open spec fn unsigned_digits(t: Seq<u8>) -> Seq<u8> {
    if t.len() > 0 && t[0] == 43 {
        t.drop_first()
    } else {
        t
    }
}

/// Whether `t` is the text of a `u8`, as std's `u8::from_str` reads it.
pub open spec fn is_u8_text(t: Seq<u8>) -> bool {
    let d = unsigned_digits(t);
    &&& d.len() > 0
    &&& forall|i: int| 0 <= i < d.len() ==> is_digit(#[trigger] d[i])
    &&& digits_value(d) <= 255
}

pub open spec fn u8_of_text(t: Seq<u8>) -> u8 {
    digits_value(unsigned_digits(t)) as u8
}

pub open spec fn kw_ok() -> Seq<u8> {
    seq![111u8, 107]
}

pub open spec fn kw_suggest() -> Seq<u8> {
    seq![115u8, 117, 103, 103, 101, 115, 116]
}

pub open spec fn kw_debug() -> Seq<u8> {
    seq![100u8, 101, 98, 117, 103]
}

pub open spec fn kw_error() -> Seq<u8> {
    seq![101u8, 114, 114, 111, 114]
}

pub open spec fn kw_unknown() -> Seq<u8> {
    seq![117u8, 110, 107, 110, 111, 119, 110]
}

pub open spec fn kw_message() -> Seq<u8> {
    seq![109u8, 101, 115, 115, 97, 103, 101]
}

/// The text `b[lo..hi]` held as a `String`.
pub open spec fn holds_text(s: String, b: Seq<u8>, lo: int, hi: int) -> bool {
    encode_utf8(s@) == b.subrange(lo, hi)
}

/// What reading the coordinate token `b[s..e]` gives; `suggest` picks the variant.
pub open spec fn coords_result(
    b: Seq<u8>,
    s: int,
    e: int,
    suggest: bool,
    r: Result<Response, ResponseParseErr>,
) -> bool {
    let c1 = find_comma(b, s, e);
    let c2 = find_comma(b, c1 + 1, e);
    if c1 == e {
        r is Err && r->Err_0 is MissingCoordinate
    } else if !is_u8_text(b.subrange(s, c1)) {
        match r {
            Err(ResponseParseErr::InvalidCoordinate(t)) => holds_text(t, b, s, c1),
            _ => false,
        }
    } else if !is_u8_text(b.subrange(c1 + 1, c2)) {
        match r {
            Err(ResponseParseErr::InvalidCoordinate(t)) => holds_text(t, b, c1 + 1, c2),
            _ => false,
        }
    } else {
        let p = (u8_of_text(b.subrange(s, c1)), u8_of_text(b.subrange(c1 + 1, c2)));
        if suggest {
            r matches Ok(Response::Suggest(q)) && q == p
        } else {
            r matches Ok(Response::Move(q)) && q == p
        }
    }
}

/// What reading one response line `b` gives. The first token picks the
/// kind, without regard to case; a line that starts with no keyword is a
/// move `x,y`; the informational kinds carry the rest of the line, its words
/// joined by single spaces.
pub open spec fn response_result(b: Seq<u8>, r: Result<Response, ResponseParseErr>) -> bool {
    let s0 = skip_space(b, 0);
    let e0 = token_end(b, s0);
    let kw = lower(b.subrange(s0, e0));
    let ps = skip_space(b, e0);
    if s0 == b.len() {
        r matches Ok(Response::Empty)
    } else if kw == kw_ok() {
        r matches Ok(Response::Acknowledged)
    } else if kw == kw_suggest() {
        if ps == b.len() {
            r is Err && r->Err_0 is MissingArgument
        } else {
            coords_result(b, ps, token_end(b, ps), true, r)
        }
    } else if kw == kw_debug() {
        r matches Ok(Response::Debug(t)) && holds_bytes(t, words(b, ps, false))
    } else if kw == kw_error() {
        r matches Ok(Response::Error(t)) && holds_bytes(t, words(b, ps, false))
    } else if kw == kw_unknown() {
        r matches Ok(Response::Unknown(t)) && holds_bytes(t, words(b, ps, false))
    } else if kw == kw_message() {
        r matches Ok(Response::Message(t)) && holds_bytes(t, words(b, ps, false))
    } else {
        coords_result(b, s0, e0, false, r)
    }
}

/// In valid UTF-8 a byte that follows an ASCII byte starts a character.
proof fn lemma_after_ascii(b: Seq<u8>, j: int)
    requires
        valid_utf8(b),
        0 <= j,
        j + 1 < b.len(),
        b[j] < 128,
    ensures
        !is_continuation_byte(b[j + 1]),
    decreases b.len(),
{
    let l = length_of_first_scalar(b);
    let rest = pop_first_scalar(b);
    assert(valid_first_scalar(b) && valid_utf8(rest));
    if j == 0 {
        assert(l == 1);
        assert(rest[0] == b[1]);
        assert(valid_first_scalar(rest));
    } else if j < l {
        assert(is_continuation_byte(b[j]));
    } else {
        assert(rest[j - l] == b[j]);
        assert(rest[j - l + 1] == b[j + 1]);
        lemma_after_ascii(rest, j - l);
    }
}

/// Whether `i` is a place in `b` next to an ASCII byte, or an end.
pub open spec fn at_ascii_edge(b: Seq<u8>, i: int) -> bool {
    ||| i == 0
    ||| i == b.len()
    ||| (0 <= i < b.len() && b[i] < 128)
    ||| (0 < i <= b.len() && b[i - 1] < 128)
}

proof fn lemma_edge_is_boundary(b: Seq<u8>, i: int)
    requires
        valid_utf8(b),
        0 <= i <= b.len(),
        at_ascii_edge(b, i),
    ensures
        is_char_boundary(b, i),
{
    is_char_boundary_start_end_of_seq(b);
    if 0 < i < b.len() {
        if b[i - 1] < 128 {
            lemma_after_ascii(b, i - 1);
        }
        is_char_boundary_iff_not_is_continuation_byte(b, i);
    }
}

/// The text of `line` between two byte offsets next to ASCII bytes.
fn text_between(line: &str, lo: usize, hi: usize) -> (r: String)
    requires
        lo <= hi <= line.spec_bytes().len(),
        at_ascii_edge(line.spec_bytes(), lo as int),
        at_ascii_edge(line.spec_bytes(), hi as int),
    ensures
        holds_text(r, line.spec_bytes(), lo as int, hi as int),
{
    let ghost b = line.spec_bytes();
    proof {
        encode_utf8_valid_utf8(line@);
        lemma_edge_is_boundary(b, hi as int);
    }
    let (head, _) = line.split_at(hi);
    proof {
        let hb = head.spec_bytes();
        assert(hb == b.subrange(0, hi as int));
        encode_utf8_valid_utf8(head@);
        if lo == hi {
            is_char_boundary_start_end_of_seq(hb);
        } else {
            lemma_edge_is_boundary(b, lo as int);
            is_char_boundary_iff_not_is_continuation_byte(b, lo as int);
            is_char_boundary_iff_not_is_continuation_byte(hb, lo as int);
        }
    }
    let (_, mid) = head.split_at(lo);
    assert(mid.spec_bytes() =~= b.subrange(lo as int, hi as int));
    mid.to_owned()
}

fn skip_space_at(b: &[u8], i: usize) -> (r: usize)
    requires
        i <= b@.len(),
    ensures
        r == skip_space(b@, i as int),
        i <= r <= b@.len(),
        r < b@.len() ==> !is_space(b@[r as int]),
        forall|k: int| i <= k < r ==> is_space(#[trigger] b@[k]),
{
    let mut j = i;
    while j < b.len() && is_space_byte(b[j])
        invariant
            i <= j <= b@.len(),
            skip_space(b@, j as int) == skip_space(b@, i as int),
            forall|k: int| i <= k < j ==> is_space(#[trigger] b@[k]),
        decreases b@.len() - j,
    {
        j = j + 1;
    }
    j
}

fn token_end_at(b: &[u8], i: usize) -> (r: usize)
    requires
        i <= b@.len(),
    ensures
        r == token_end(b@, i as int),
        i <= r <= b@.len(),
        r < b@.len() ==> is_space(b@[r as int]),
        forall|k: int| i <= k < r ==> !is_space(#[trigger] b@[k]),
{
    let mut j = i;
    while j < b.len() && !is_space_byte(b[j])
        invariant
            i <= j <= b@.len(),
            token_end(b@, j as int) == token_end(b@, i as int),
            forall|k: int| i <= k < j ==> !is_space(#[trigger] b@[k]),
        decreases b@.len() - j,
    {
        j = j + 1;
    }
    j
}

fn find_comma_at(b: &[u8], i: usize, e: usize) -> (r: usize)
    requires
        i <= e <= b@.len(),
    ensures
        r == find_comma(b@, i as int, e as int),
        i <= r <= e,
        r < e ==> b@[r as int] == COMMA,
{
    let mut j = i;
    while j < e && b[j] != COMMA
        invariant
            i <= j <= e,
            e <= b@.len(),
            find_comma(b@, j as int, e as int) == find_comma(b@, i as int, e as int),
        decreases e - j,
    {
        j = j + 1;
    }
    j
}

fn is_space_byte(c: u8) -> (r: bool)
    ensures
        r == is_space(c),
{
    c == 9 || c == 10 || c == 11 || c == 12 || c == 13 || c == 32
}

fn lower_byte(c: u8) -> (r: u8)
    ensures
        r == ascii_lower(c),
{
    if 65 <= c && c <= 90 {
        c + 32
    } else {
        c
    }
}

/// Whether `b[s..e]`, read without regard to ASCII case, is the keyword `kw`.
fn token_is(b: &[u8], s: usize, e: usize, kw: &[u8]) -> (r: bool)
    requires
        s <= e <= b@.len(),
    ensures
        r == (lower(b@.subrange(s as int, e as int)) == kw@),
{
    let ghost t = lower(b@.subrange(s as int, e as int));
    if e - s != kw.len() {
        assert(t.len() != kw@.len());
        return false;
    }
    let mut i: usize = 0;
    while i < kw.len()
        invariant
            e - s == kw@.len(),
            s <= e <= b@.len(),
            i <= kw@.len(),
            t == lower(b@.subrange(s as int, e as int)),
            forall|k: int| 0 <= k < i ==> t[k] == kw@[k],
        decreases kw@.len() - i,
    {
        if lower_byte(b[s + i]) != kw[i] {
            assert(t[i as int] != kw@[i as int]);
            return false;
        }
        i = i + 1;
    }
    assert(t =~= kw@);
    true
}

proof fn lemma_digits_grow(t: Seq<u8>, n: int)
    requires
        0 <= n <= t.len(),
        forall|i: int| 0 <= i < t.len() ==> is_digit(#[trigger] t[i]),
    ensures
        digits_value(t.subrange(0, n)) <= digits_value(t),
    decreases t.len() - n,
{
    if n < t.len() {
        lemma_digits_grow(t, n + 1);
        assert(t.subrange(0, n + 1).drop_last() == t.subrange(0, n));
    } else {
        assert(t.subrange(0, n) == t);
    }
}

/// Reads `b[s..e]` as a `u8` the way std's `u8::from_str` does.
fn parse_u8(b: &[u8], s: usize, e: usize) -> (r: Option<u8>)
    requires
        s <= e <= b@.len(),
    ensures
        r == (if is_u8_text(b@.subrange(s as int, e as int)) {
            Some(u8_of_text(b@.subrange(s as int, e as int)))
        } else {
            None::<u8>
        }),
{
    let ghost t = b@.subrange(s as int, e as int);
    let start: usize = if s < e && b[s] == 43 {
        s + 1
    } else {
        s
    };
    let ghost d = b@.subrange(start as int, e as int);
    assert(d == unsigned_digits(t));
    if start == e {
        return None;
    }
    let mut value: u32 = 0;
    let mut i: usize = start;
    while i < e
        invariant
            start <= i <= e <= b@.len(),
            d == b@.subrange(start as int, e as int),
            d == unsigned_digits(b@.subrange(s as int, e as int)),
            d.len() > 0,
            value == digits_value(d.subrange(0, i - start)),
            value <= 255,
            forall|k: int| 0 <= k < i - start ==> is_digit(#[trigger] d[k]),
        decreases e - i,
    {
        let c = b[i];
        if c < 48 || c > 57 {
            assert(!is_digit(d[i - start]));
            return None;
        }
        assert(d.subrange(0, i + 1 - start).drop_last() == d.subrange(0, i - start));
        value = value * 10 + (c - 48) as u32;
        i = i + 1;
        if value > 255 {
            proof {
                if forall|k: int| 0 <= k < d.len() ==> is_digit(#[trigger] d[k]) {
                    lemma_digits_grow(d, i - start);
                }
            }
            return None;
        }
    }
    assert(d.subrange(0, i - start) == d);
    Some(value as u8)
}

/// Reads the coordinate token `b[s..e]` of `line`.
fn parse_coords(line: &str, b: &[u8], s: usize, e: usize, suggest: bool) -> (r: Result<
    Response,
    ResponseParseErr,
>)
    requires
        b@ == line.spec_bytes(),
        s < e <= b@.len(),
        s == 0 || is_space(b@[s - 1]),
        e == b@.len() || is_space(b@[e as int]),
    ensures
        coords_result(b@, s as int, e as int, suggest, r),
{
    let c1 = find_comma_at(b, s, e);
    if c1 == e {
        return Err(ResponseParseErr::MissingCoordinate);
    }
    let c2 = find_comma_at(b, c1 + 1, e);
    let x = match parse_u8(b, s, c1) {
        Some(x) => x,
        None => return Err(ResponseParseErr::InvalidCoordinate(text_between(line, s, c1))),
    };
    let y = match parse_u8(b, c1 + 1, c2) {
        Some(y) => y,
        None => return Err(ResponseParseErr::InvalidCoordinate(text_between(line, c1 + 1, c2))),
    };
    if suggest {
        Ok(Response::Suggest((x, y)))
    } else {
        Ok(Response::Move((x, y)))
    }
}

proof fn lemma_encode_concat(a: Seq<char>, c: Seq<char>)
    ensures
        encode_utf8(a + c) == encode_utf8(a) + encode_utf8(c),
    decreases a.len(),
{
    if a.len() > 0 {
        assert((a + c).drop_first() == a.drop_first() + c);
        lemma_encode_concat(a.drop_first(), c);
        assert((a + c)[0] == a[0]);
    } else {
        assert(a + c == c);
    }
}

/// Spaces before `s` only owe a gap.
proof fn lemma_words_skip(b: Seq<u8>, i: int, s: int, gap: bool)
    requires
        0 <= i <= s <= b.len(),
        forall|k: int| i <= k < s ==> is_space(#[trigger] b[k]),
    ensures
        words(b, i, gap) == words(b, s, gap || s > i),
    decreases s - i,
{
    if i < s {
        lemma_words_skip(b, i + 1, s, true);
    }
}

/// A word `b[s..e]` is written whole.
proof fn lemma_words_token(b: Seq<u8>, s: int, e: int, gap: bool)
    requires
        0 <= s < e <= b.len(),
        forall|k: int| s <= k < e ==> !is_space(#[trigger] b[k]),
    ensures
        words(b, s, gap) == (if gap {
            seq![32u8]
        } else {
            Seq::<u8>::empty()
        }) + b.subrange(s, e) + words(b, e, false),
    decreases e - s,
{
    if s + 1 < e {
        lemma_words_token(b, s + 1, e, false);
        assert(b.subrange(s, e) == seq![b[s]] + b.subrange(s + 1, e));
    } else {
        assert(b.subrange(s, e) == seq![b[s]]);
    }
}

/// The words of `line` from byte `start` on, joined by single spaces.
fn join_words(line: &str, b: &[u8], start: usize) -> (r: String)
    requires
        b@ == line.spec_bytes(),
        start <= b@.len(),
        start == b@.len() || (start > 0 && is_space(b@[start - 1])),
        start == b@.len() || !is_space(b@[start as int]),
    ensures
        holds_bytes(r, words(b@, start as int, false)),
{
    let mut out = String::new();
    let mut i = start;
    let mut first = true;
    proof {
        assert(encode_utf8(out@) =~= Seq::<u8>::empty());
    }
    while i < b.len()
        invariant
            b@ == line.spec_bytes(),
            start <= i <= b@.len(),
            start == b@.len() || (start > 0 && is_space(b@[start - 1])),
            start == b@.len() || !is_space(b@[start as int]),
            first ==> i == start,
            !first ==> (i == b@.len() || is_space(b@[i as int])),
            encode_utf8(out@) + words(b@, i as int, !first) == words(b@, start as int, false),
        decreases b@.len() - i,
    {
        let ghost old_out = out@;
        let s = skip_space_at(b, i);
        proof {
            lemma_words_skip(b@, i as int, s as int, !first);
        }
        if s == b.len() {
            proof {
                assert(words(b@, s as int, !first || s > i) =~= Seq::<u8>::empty());
                assert(encode_utf8(out@) + Seq::<u8>::empty() =~= encode_utf8(out@));
            }
            return out;
        }
        let e = token_end_at(b, s);
        let gap = !first && s > i;
        proof {
            lemma_words_token(b@, s as int, e as int, gap);
            if !first {
                assert(s > i);
            }
        }
        if gap {
            let ghost before = out@;
            out.append(" ");
            assert(out@ == before + " "@);
            proof {
                reveal_strlit(" ");
                lemma_encode_concat(before, " "@);
                is_ascii_chars_encode_utf8(" "@);
                assert(encode_utf8(" "@) =~= seq![32u8]);
            }
        }
        let ghost mid = out@;
        let w = text_between(line, s, e);
        out.append(w.as_str());
        proof {
            lemma_encode_concat(mid, w@);
            let sp = if gap {
                seq![32u8]
            } else {
                Seq::<u8>::empty()
            };
            assert(encode_utf8(mid) == encode_utf8(old_out) + sp);
            assert(words(b@, e as int, false) == words(b@, e as int, true));
            assert(encode_utf8(out@) + words(b@, e as int, true) =~= encode_utf8(old_out) + words(
                b@,
                s as int,
                gap,
            ));
        }
        first = false;
        i = e;
    }
    proof {
        assert(words(b@, i as int, !first) =~= Seq::<u8>::empty());
        assert(encode_utf8(out@) + Seq::<u8>::empty() =~= encode_utf8(out@));
    }
    out
}

impl Response {
    /// Reads one line written by the engine.
    pub fn parse(line: &str) -> (r: Result<Response, ResponseParseErr>)
        ensures
            response_result(line.spec_bytes(), r),
    {
        let b = line.as_bytes();
        let len = b.len();
        let s0 = skip_space_at(b, 0);
        if s0 == len {
            return Ok(Response::Empty);
        }
        let e0 = token_end_at(b, s0);
        let ps = skip_space_at(b, e0);
        if token_is(b, s0, e0, &[111u8, 107]) {
            Ok(Response::Acknowledged)
        } else if token_is(b, s0, e0, &[115u8, 117, 103, 103, 101, 115, 116]) {
            if ps == len {
                Err(ResponseParseErr::MissingArgument)
            } else {
                let e1 = token_end_at(b, ps);
                parse_coords(line, b, ps, e1, true)
            }
        } else if token_is(b, s0, e0, &[100u8, 101, 98, 117, 103]) {
            Ok(Response::Debug(join_words(line, b, ps)))
        } else if token_is(b, s0, e0, &[101u8, 114, 114, 111, 114]) {
            Ok(Response::Error(join_words(line, b, ps)))
        } else if token_is(b, s0, e0, &[117u8, 110, 107, 110, 111, 119, 110]) {
            Ok(Response::Unknown(join_words(line, b, ps)))
        } else if token_is(b, s0, e0, &[109u8, 101, 115, 115, 97, 103, 101]) {
            Ok(Response::Message(join_words(line, b, ps)))
        } else {
            parse_coords(line, b, s0, e0, false)
        }
    }
}

/// std's `io::Error`, carried unread inside `EngineError::IoError` for a
/// failed read or write on the engine's pipes.
#[verifier::external_type_specification]
#[verifier::external_body]
pub struct ExIoError(std::io::Error);

/// Why an exchange with the engine failed.
#[derive(Debug)]
pub enum EngineError {
    Error(String),
    Unknown(String),
    ResponseParseError(ResponseParseErr),
    IoError(std::io::Error),
    UnexpectedResponse(Response),
}

/// What a line read while waiting for an answer means for the exchange:
/// `None` when it is informational and the wait goes on, else the answer.
/// A suggested move counts as a committed one.
pub open spec fn settle_result(
    parsed: Result<Response, ResponseParseErr>,
    r: Option<Result<Response, EngineError>>,
) -> bool {
    match parsed {
        Err(e) => r == Some(Err::<Response, EngineError>(EngineError::ResponseParseError(e))),
        Ok(Response::Acknowledged) => r == Some(Ok::<Response, EngineError>(Response::Acknowledged)),
        Ok(Response::Move(p)) => r == Some(Ok::<Response, EngineError>(Response::Move(p))),
        Ok(Response::Suggest(p)) => r == Some(Ok::<Response, EngineError>(Response::Move(p))),
        Ok(Response::Debug(_)) => r is None,
        Ok(Response::Message(_)) => r is None,
        Ok(Response::Error(t)) => r == Some(Err::<Response, EngineError>(EngineError::Error(t))),
        Ok(Response::Unknown(t)) => r == Some(
            Err::<Response, EngineError>(EngineError::Unknown(t)),
        ),
        Ok(Response::Empty) => r == Some(Ok::<Response, EngineError>(Response::Empty)),
    }
}

/// Classifies one parsed line of an exchange that waits for an answer:
/// `None` to keep reading, else the exchange's result.
pub fn settle(parsed: Result<Response, ResponseParseErr>) -> (r: Option<
    Result<Response, EngineError>,
>)
    ensures
        settle_result(parsed, r),
{
    match parsed {
        Err(e) => Some(Err(EngineError::ResponseParseError(e))),
        Ok(Response::Acknowledged) => Some(Ok(Response::Acknowledged)),
        Ok(Response::Move(p)) => Some(Ok(Response::Move(p))),
        Ok(Response::Suggest(p)) => Some(Ok(Response::Move(p))),
        Ok(Response::Debug(_)) => None,
        Ok(Response::Message(_)) => None,
        Ok(Response::Error(t)) => Some(Err(EngineError::Error(t))),
        Ok(Response::Unknown(t)) => Some(Err(EngineError::Unknown(t))),
        Ok(Response::Empty) => Some(Ok(Response::Empty)),
    }
}

proof fn lemma_dec_text(n: nat)
    ensures
        dec_text(n).len() >= 1,
        forall|i: int| 0 <= i < dec_text(n).len() ==> is_digit(#[trigger] dec_text(n)[i]),
        digits_value(dec_text(n)) == n,
    decreases n,
{
    if n >= 10 {
        lemma_dec_text(n / 10);
        let t = dec_text(n);
        assert(t.drop_last() == dec_text(n / 10));
        assert forall|i: int| 0 <= i < t.len() implies is_digit(#[trigger] t[i]) by {
            if i < t.len() - 1 {
                assert(t[i] == dec_text(n / 10)[i]);
            }
        }
        assert(t.last() == (48 + n % 10) as u8);
        assert((t.last() - 48) as nat == n % 10);
        assert(n == (n / 10) * 10 + n % 10);
    } else {
        assert(dec_text(n).drop_last() =~= Seq::<u8>::empty());
        assert(digits_value(Seq::<u8>::empty()) == 0);
    }
}

proof fn lemma_token_end_at(b: Seq<u8>, i: int, e: int)
    requires
        0 <= i <= e <= b.len(),
        forall|k: int| i <= k < e ==> !is_space(#[trigger] b[k]),
        e == b.len() || is_space(b[e]),
    ensures
        token_end(b, i) == e,
    decreases e - i,
{
    if i < e {
        lemma_token_end_at(b, i + 1, e);
    }
}

proof fn lemma_find_comma_at(b: Seq<u8>, i: int, j: int, e: int)
    requires
        0 <= i <= j <= e <= b.len(),
        forall|k: int| i <= k < j ==> #[trigger] b[k] != COMMA,
        j == e || b[j] == COMMA,
    ensures
        find_comma(b, i, e) == j,
    decreases j - i,
{
    if i < j {
        lemma_find_comma_at(b, i + 1, j, e);
    }
}

/// An engine's `x,y` answer reads back as the very coordinate pair that was
/// written, for every pair on the board: the text a board command uses for
/// a move is the text that the reader takes for a committed move.
pub proof fn lemma_move_round_trip(p: (u8, u8), r: Result<Response, ResponseParseErr>)
    ensures
        response_result(coord_text(p) + crlf(), r) <==> (r matches Ok(Response::Move(q)) && q
            == p),
{
    let dx = dec_text(p.0 as nat);
    let dy = dec_text(p.1 as nat);
    lemma_dec_text(p.0 as nat);
    lemma_dec_text(p.1 as nat);
    let t = coord_text(p);
    let b = t + crlf();
    let cx = dx.len() as int;
    let e = t.len() as int;
    assert(b.subrange(0, cx) == dx);
    assert(b.subrange(cx + 1, e) == dy);
    assert(b[cx] == COMMA);
    assert forall|k: int| 0 <= k < cx implies #[trigger] b[k] != COMMA && !is_space(b[k]) by {
        assert(b[k] == dx[k]);
    }
    assert forall|k: int| cx + 1 <= k < e implies #[trigger] b[k] != COMMA && !is_space(b[k]) by {
        assert(b[k] == dy[k - cx - 1]);
    }
    assert forall|k: int| 0 <= k < e implies !is_space(#[trigger] b[k]) by {
        if k < cx {
            assert(b[k] != COMMA && !is_space(b[k]));
        } else if k > cx {
            assert(b[k] != COMMA && !is_space(b[k]));
        }
    }
    assert(is_space(b[e]));
    assert(skip_space(b, 0) == 0);
    lemma_token_end_at(b, 0, e);
    lemma_find_comma_at(b, 0, cx, e);
    lemma_find_comma_at(b, cx + 1, e, e);
    let kw = lower(b.subrange(0, e));
    assert(kw[0] == b[0]);
    assert(kw != kw_ok() && kw != kw_suggest() && kw != kw_debug() && kw != kw_error()
        && kw != kw_unknown() && kw != kw_message()) by {
        assert(kw_ok()[0] != kw[0]);
        assert(kw_suggest()[0] != kw[0]);
        assert(kw_debug()[0] != kw[0]);
        assert(kw_error()[0] != kw[0]);
        assert(kw_unknown()[0] != kw[0]);
        assert(kw_message()[0] != kw[0]);
    }
    assert(unsigned_digits(dx) == dx);
    assert(unsigned_digits(dy) == dy);
}

/// The commands that open a session with an engine: a 15x15 board, `move_time`
/// milliseconds per move, one search thread, and rule variant 2.
pub fn handshake<'a>(move_time: &'a str) -> (r: Vec<Command<'a>>)
    ensures
        r@.len() == 4,
        r@[0] matches Command::Start(n) && n == 15,
        r@[1] matches Command::Info { key, value } && key@ == "timeout_turn"@ && value@
            == move_time@,
        r@[2] matches Command::Info { key, value } && key@ == "thread_num"@ && value@ == "1"@,
        r@[3] matches Command::Info { key, value } && key@ == "rule"@ && value@ == "2"@,
{
    let mut r: Vec<Command<'a>> = Vec::new();
    r.push(Command::Start(15));
    r.push(Command::Info { key: "timeout_turn", value: move_time });
    r.push(Command::Info { key: "thread_num", value: "1" });
    r.push(Command::Info { key: "rule", value: "2" });
    r
}

impl Clone for Response {
    fn clone(&self) -> (r: Response)
        ensures
            r == *self,
    {
        match self {
            Response::Acknowledged => Response::Acknowledged,
            Response::Move(p) => Response::Move((p.0, p.1)),
            Response::Suggest(p) => Response::Suggest((p.0, p.1)),
            Response::Debug(t) => Response::Debug(t.clone()),
            Response::Error(t) => Response::Error(t.clone()),
            Response::Unknown(t) => Response::Unknown(t.clone()),
            Response::Message(t) => Response::Message(t.clone()),
            Response::Empty => Response::Empty,
        }
    }
}

impl std::str::FromStr for Response {
    type Err = ResponseParseErr;

    fn from_str(s: &str) -> (r: Result<Response, ResponseParseErr>)
        ensures
            response_result(s.spec_bytes(), r),
    {
        Response::parse(s)
    }
}

} // verus!
