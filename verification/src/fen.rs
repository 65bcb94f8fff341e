//! FEN: the text notation of a position.
//!
//! The six fields are piece placement, side to move, castling rights,
//! en-passant square, halfmove clock and fullmove number. Reading is tolerant of
//! a truncated text: missing fields have defaults.

use vstd::prelude::*;
use crate::position::{Position, BLACK_OO, BLACK_OOO, WHITE_OO, WHITE_OOO};
use crate::state::State;
use crate::text;
use crate::types::{Color, Piece, PieceType, Square};

verus! {

// ---------------------------------------------------------------------------
// What a FEN text means.
// ---------------------------------------------------------------------------

/// Where the reader of a placement field stands.
pub struct Cursor {
    pub board: Seq<Option<Piece>>,
    pub rank: int,
    pub file: int,
}

/// The piece with the given letter.
pub open spec fn piece_of(c: char) -> Piece {
    choose|p: Piece| #[trigger] p.to_char() == c
}

pub open spec fn overflow_message(placement: Seq<char>) -> Seq<char> {
    "FEN rank overflows past file h: "@ + placement
}

/// What one character of the placement field does: `/` ends a full rank, a digit
/// skips squares, and a letter puts a piece on the next square.
pub open spec fn place_one(placement: Seq<char>, c: char, at: Cursor) -> Result<
    Cursor,
    Seq<char>,
> {
    if c == '/' {
        if at.file != 8 {
            Err(
                "FEN rank "@ + text::decimal((8 - at.rank) as nat) + " has "@ + text::decimal(
                    at.file as nat,
                ) + " files, expected 8"@,
            )
        } else if at.rank == 0 {
            Err("FEN has more than 8 ranks"@)
        } else {
            Ok(Cursor { board: at.board, rank: at.rank - 1, file: 0 })
        }
    } else if '1' <= c <= '9' {
        if at.file + (c as int - 48) > 8 {
            Err(overflow_message(placement))
        } else {
            Ok(Cursor { file: at.file + (c as int - 48), ..at })
        }
    } else if !Piece::is_letter(c) {
        Err("FEN has invalid piece char '"@ + seq![c] + "'"@)
    } else if at.file >= 8 {
        Err(overflow_message(placement))
    } else {
        Ok(
            Cursor {
                board: at.board.update(at.rank * 8 + at.file, Some(piece_of(c))),
                rank: at.rank,
                file: at.file + 1,
            },
        )
    }
}

/// What the placement field from character `i` on does.
pub open spec fn place(placement: Seq<char>, i: int, at: Cursor) -> Result<Cursor, Seq<char>>
    decreases placement.len() - i,
{
    if 0 <= i < placement.len() {
        match place_one(placement, placement[i], at) {
            Ok(next) => place(placement, i + 1, next),
            Err(e) => Err(e),
        }
    } else {
        Ok(at)
    }
}

/// The board without pieces.
pub open spec fn bare_board() -> Seq<Option<Piece>> {
    Seq::new(64, |i: int| None)
}

/// The board that a placement field describes, from rank 8 down to rank 1.
pub open spec fn placement_meaning(placement: Seq<char>) -> Result<
    Seq<Option<Piece>>,
    Seq<char>,
> {
    match place(placement, 0, Cursor { board: bare_board(), rank: 7, file: 0 }) {
        Err(e) => Err(e),
        Ok(at) => if at.rank == 0 && at.file == 8 {
            Ok(at.board)
        } else {
            Err("FEN placement is not a full 8x8 board: "@ + placement)
        },
    }
}

/// The side that a side field names.
pub open spec fn side_meaning(field: Seq<char>) -> Result<Color, Seq<char>> {
    if field == "w"@ || field == "W"@ {
        Ok(Color::White)
    } else if field == "b"@ || field == "B"@ {
        Ok(Color::Black)
    } else {
        Err("FEN side to move must be 'w' or 'b', got '"@ + field + "'"@)
    }
}

/// The right that a letter stands for.
pub open spec fn right_of(c: char) -> Option<u8> {
    if c == 'K' {
        Some(WHITE_OO)
    } else if c == 'Q' {
        Some(WHITE_OOO)
    } else if c == 'k' {
        Some(BLACK_OO)
    } else if c == 'q' {
        Some(BLACK_OOO)
    } else {
        None
    }
}

/// The rights that the first `n` letters of a castling field grant.
pub open spec fn rights_meaning(field: Seq<char>, n: int) -> Result<u8, Seq<char>>
    decreases n,
{
    if n <= 0 {
        Ok(0)
    } else {
        match rights_meaning(field, n - 1) {
            Err(e) => Err(e),
            Ok(rights) => match right_of(field[n - 1]) {
                Some(right) => Ok(rights | right),
                None => Err("FEN has invalid castling char '"@ + seq![field[n - 1]] + "'"@),
            },
        }
    }
}

/// The rights that a castling field grants.
pub open spec fn castling_meaning(field: Seq<char>) -> Result<u8, Seq<char>> {
    if field == "-"@ {
        Ok(0)
    } else {
        rights_meaning(field, field.len() as int)
    }
}

/// The target that an en-passant field names.
pub open spec fn ep_meaning(field: Seq<char>) -> Result<Option<Square>, Seq<char>> {
    if field == "-"@ {
        Ok(None)
    } else if field.len() == 2 && 'a' <= field[0] <= 'h' && '1' <= field[1] <= '8' {
        Ok(Some(Square(((field[1] as int - 49) * 8 + (field[0] as int - 97)) as u8)))
    } else {
        Err("FEN en-passant square is malformed: '"@ + field + "'"@)
    }
}

/// The number that a clock field holds.
pub open spec fn clock_meaning(field: Seq<char>, complaint: Seq<char>) -> Result<u16, Seq<char>> {
    match text::u16_value(field) {
        Some(n) => Ok(n),
        None => Err(complaint + field + "'"@),
    }
}

/// Field `k` of the text, or the default if the text ends before it.
pub open spec fn field_or(fields: Seq<Seq<char>>, k: int, default: Seq<char>) -> Seq<char> {
    if k < fields.len() {
        fields[k]
    } else {
        default
    }
}

/// The position that the fields of a FEN describe, or the complaint about the
/// first field that makes no sense. Move number 0 counts as 1.
pub open spec fn fields_meaning(fields: Seq<Seq<char>>) -> Result<State, Seq<char>> {
    if fields.len() == 0 {
        Err("FEN is empty"@)
    } else {
        match placement_meaning(fields[0]) {
            Err(e) => Err(e),
            Ok(board) => match side_meaning(field_or(fields, 1, "w"@)) {
                Err(e) => Err(e),
                Ok(side) => match castling_meaning(field_or(fields, 2, "-"@)) {
                    Err(e) => Err(e),
                    Ok(castling) => match ep_meaning(field_or(fields, 3, "-"@)) {
                        Err(e) => Err(e),
                        Ok(ep) => match clock_meaning(
                            field_or(fields, 4, seq!['0']),
                            "FEN halfmove clock is not a number: '"@,
                        ) {
                            Err(e) => Err(e),
                            Ok(half) => match clock_meaning(
                                field_or(fields, 5, seq!['1']),
                                "FEN fullmove number is not a number: '"@,
                            ) {
                                Err(e) => Err(e),
                                Ok(full) => Ok(
                                    State {
                                        board,
                                        side,
                                        castling,
                                        ep,
                                        half,
                                        full: if full == 0 {
                                            1
                                        } else {
                                            full
                                        },
                                    },
                                ),
                            },
                        },
                    },
                },
            },
        }
    }
}

/// The position that a FEN text describes.
pub open spec fn meaning(fen: Seq<char>) -> Result<State, Seq<char>> {
    fields_meaning(text::words(fen))
}

// ---------------------------------------------------------------------------
// The FEN text of a position.
// ---------------------------------------------------------------------------

/// The digit for a run of `n` empty squares, if there is a run.
pub open spec fn run(n: int) -> Seq<char> {
    if n > 0 {
        seq![text::digit_spec(n)]
    } else {
        Seq::empty()
    }
}

/// The text of a rank from `file` on, after a run of `empties` empty squares.
pub open spec fn rank_text(board: Seq<Option<Piece>>, rank: int, file: int, empties: int) -> Seq<
    char,
>
    decreases 8 - file,
{
    if file >= 8 {
        run(empties)
    } else {
        match board[rank * 8 + file] {
            Some(p) => run(empties) + seq![p.to_char()] + rank_text(board, rank, file + 1, 0),
            None => rank_text(board, rank, file + 1, empties + 1),
        }
    }
}

/// The text of the lowest ranks up to `rank`, highest first, separated by `/`.
pub open spec fn ranks_text(board: Seq<Option<Piece>>, rank: int) -> Seq<char>
    decreases rank,
{
    if rank <= 0 {
        rank_text(board, 0, 0, 0)
    } else {
        rank_text(board, rank, 0, 0) + seq!['/'] + ranks_text(board, rank - 1)
    }
}

/// The letter of a side.
pub open spec fn side_text(side: Color) -> Seq<char> {
    match side {
        Color::White => seq!['w'],
        Color::Black => seq!['b'],
    }
}

/// The letter of a right, if it is among `rights`.
pub open spec fn right_text(rights: u8, right: u8, c: char) -> Seq<char> {
    if rights & right != 0 {
        seq![c]
    } else {
        Seq::empty()
    }
}

/// The letters of the castling rights.
pub open spec fn castling_text(rights: u8) -> Seq<char> {
    if rights == 0 {
        seq!['-']
    } else {
        right_text(rights, WHITE_OO, 'K') + right_text(rights, WHITE_OOO, 'Q') + right_text(
            rights,
            BLACK_OO,
            'k',
        ) + right_text(rights, BLACK_OOO, 'q')
    }
}

/// The name of the en-passant target.
pub open spec fn ep_text(ep: Option<Square>) -> Seq<char> {
    match ep {
        Some(sq) => sq.name(),
        None => seq!['-'],
    }
}

/// The six fields of the FEN of a position.
pub open spec fn fields_of(s: State) -> Seq<Seq<char>> {
    seq![
        ranks_text(s.board, 7),
        side_text(s.side),
        castling_text(s.castling),
        ep_text(s.ep),
        text::decimal(s.half as nat),
        text::decimal(s.full as nat),
    ]
}

/// The FEN of a position: its six fields, separated by single spaces.
pub open spec fn fen_text(s: State) -> Seq<char> {
    text::joined(fields_of(s))
}

// ---------------------------------------------------------------------------
// Reading.
// ---------------------------------------------------------------------------

/// The message that consists of a text and the characters it complains about.
fn complaint(text: &str, about: &[char], end: &str) -> (r: String)
    ensures
        r@ == text@ + about@ + end@,
{
    let mut r: String = String::new();
    text::push_text(&mut r, text);
    text::push_chars(&mut r, about);
    text::push_text(&mut r, end);
    assert(r@ =~= text@ + about@ + end@);
    r
}

fn overflow_complaint(placement: &[char]) -> (r: String)
    ensures
        r@ == overflow_message(placement@),
{
    let mut r: String = String::new();
    text::push_text(&mut r, "FEN rank overflows past file h: ");
    text::push_chars(&mut r, placement);
    assert(r@ =~= overflow_message(placement@));
    r
}

fn short_rank_complaint(rank: u8, file: u8) -> (r: String)
    requires
        rank <= 8,
    ensures
        r@ == "FEN rank "@ + text::decimal((8 - rank) as nat) + " has "@ + text::decimal(
            file as nat,
        ) + " files, expected 8"@,
{
    let mut r: String = String::new();
    text::push_text(&mut r, "FEN rank ");
    text::push_decimal(&mut r, (8 - rank) as u64);
    text::push_text(&mut r, " has ");
    text::push_decimal(&mut r, file as u64);
    text::push_text(&mut r, " files, expected 8");
    assert(r@ =~= "FEN rank "@ + text::decimal((8 - rank) as nat) + " has "@ + text::decimal(
        file as nat,
    ) + " files, expected 8"@);
    r
}

/// A fixed message.
fn message(text: &str) -> (r: String)
    ensures
        r@ == text@,
{
    let mut r: String = String::new();
    text::push_text(&mut r, text);
    assert(r@ =~= text@);
    r
}

/// Read the placement field (rank 8 first, down to rank 1) onto an empty board.
fn read_placement(placement: &[char]) -> (r: Result<Position, String>)
    ensures
        match r {
            Ok(p) => {
                &&& p.wf()
                &&& p.key() == crate::state::board_hash(p@.board, 64)
                &&& placement_meaning(placement@) == Ok::<Seq<Option<Piece>>, Seq<char>>(p@.board)
            },
            Err(e) => placement_meaning(placement@) == Err::<Seq<Option<Piece>>, Seq<char>>(e@),
        },
{
    let mut pos: Position = Position::empty();
    let mut rank: u8 = 7;
    let mut file: u8 = 0;
    let mut i: usize = 0;
    let ghost whole = place(placement@, 0, Cursor { board: bare_board(), rank: 7, file: 0 });
    assert(pos@.board =~= bare_board());
    while i < placement.len()
        invariant
            i <= placement@.len(),
            rank <= 7,
            file <= 8,
            pos.wf(),
            pos.key() == crate::state::board_hash(pos@.board, 64),
            forall|k: int|
                0 <= k < 64 && (k / 8 < rank || (k / 8 == rank && k % 8 >= file))
                    ==> #[trigger] pos@.board[k] is None,
            whole == place(placement@, 0, Cursor { board: bare_board(), rank: 7, file: 0 }),
            whole == place(
                placement@,
                i as int,
                Cursor { board: pos@.board, rank: rank as int, file: file as int },
            ),
        decreases placement@.len() - i,
    {
        let c: char = placement[i];
        let ghost at = Cursor { board: pos@.board, rank: rank as int, file: file as int };
        if c == '/' {
            if file != 8 {
                return Err(short_rank_complaint(rank, file));
            }
            if rank == 0 {
                return Err(message("FEN has more than 8 ranks"));
            }
            rank = rank - 1;
            file = 0;
        } else if '1' <= c && c <= '9' {
            let n: u8 = (c as u32 - 48) as u8;
            if file + n > 8 {
                return Err(overflow_complaint(placement));
            }
            file = file + n;
        } else {
            match Piece::from_char(c) {
                None => {
                    let mut about: Vec<char> = Vec::new();
                    about.push(c);
                    assert(about@ =~= seq![c]);
                    return Err(complaint("FEN has invalid piece char '", about.as_slice(), "'"));
                },
                Some(piece) => {
                    assert(piece == piece_of(c));
                    if file >= 8 {
                        return Err(overflow_complaint(placement));
                    }
                    pos.add_piece(Square::make(file, rank), piece);
                    file = file + 1;
                },
            }
        }
        i = i + 1;
    }
    if rank != 0 || file != 8 {
        let e: String = complaint("FEN placement is not a full 8x8 board: ", placement, "");
        proof {
            reveal_strlit("");
            assert(e@ =~= "FEN placement is not a full 8x8 board: "@ + placement@);
        }
        return Err(e);
    }
    Ok(pos)
}

/// Read the side field.
fn read_side(field: &[char]) -> (r: Result<Color, String>)
    ensures
        match r {
            Ok(side) => side_meaning(field@) == Ok::<Color, Seq<char>>(side),
            Err(e) => side_meaning(field@) == Err::<Color, Seq<char>>(e@),
        },
{
    if text::equals(field, "w") || text::equals(field, "W") {
        Ok(Color::White)
    } else if text::equals(field, "b") || text::equals(field, "B") {
        Ok(Color::Black)
    } else {
        Err(complaint("FEN side to move must be 'w' or 'b', got '", field, "'"))
    }
}

/// Read the castling field.
fn read_castling(field: &[char]) -> (r: Result<u8, String>)
    ensures
        match r {
            Ok(rights) => rights < 16 && castling_meaning(field@) == Ok::<u8, Seq<char>>(rights),
            Err(e) => castling_meaning(field@) == Err::<u8, Seq<char>>(e@),
        },
{
    if text::equals(field, "-") {
        return Ok(0);
    }
    let mut rights: u8 = 0;
    let mut i: usize = 0;
    while i < field.len()
        invariant
            i <= field@.len(),
            rights < 16,
            field@ != "-"@,
            rights_meaning(field@, i as int) == Ok::<u8, Seq<char>>(rights),
        decreases field@.len() - i,
    {
        let c: char = field[i];
        let right: u8 = if c == 'K' {
            WHITE_OO
        } else if c == 'Q' {
            WHITE_OOO
        } else if c == 'k' {
            BLACK_OO
        } else if c == 'q' {
            BLACK_OOO
        } else {
            let mut about: Vec<char> = Vec::new();
            about.push(c);
            proof {
                assert(about@ =~= seq![c]);
                lemma_rights_error(field@, i + 1, field@.len() as int);
            }
            return Err(complaint("FEN has invalid castling char '", about.as_slice(), "'"));
        };
        assert(rights < 16 && right < 16 ==> rights | right < 16) by (bit_vector);
        rights = rights | right;
        i = i + 1;
    }
    Ok(rights)
}

/// A bad letter spoils the whole field.
proof fn lemma_rights_error(field: Seq<char>, m: int, n: int)
    requires
        0 <= m <= n <= field.len(),
        rights_meaning(field, m) is Err,
    ensures
        rights_meaning(field, n) == rights_meaning(field, m),
    decreases n - m,
{
    if m < n {
        lemma_rights_error(field, m, n - 1);
    }
}

/// Read the en-passant field.
fn read_ep(field: &[char]) -> (r: Result<Option<Square>, String>)
    ensures
        match r {
            Ok(ep) => (ep matches Some(q) ==> q.valid()) && ep_meaning(field@) == Ok::<
                Option<Square>,
                Seq<char>,
            >(ep),
            Err(e) => ep_meaning(field@) == Err::<Option<Square>, Seq<char>>(e@),
        },
{
    if text::equals(field, "-") {
        return Ok(None);
    }
    if field.len() == 2 && 'a' <= field[0] && field[0] <= 'h' && '1' <= field[1] && field[1]
        <= '8' {
        let file: u8 = (field[0] as u32 - 97) as u8;
        let rank: u8 = (field[1] as u32 - 49) as u8;
        Ok(Some(Square::make(file, rank)))
    } else {
        Err(complaint("FEN en-passant square is malformed: '", field, "'"))
    }
}

/// Read a clock field.
fn read_clock(field: &[char], text: &str) -> (r: Result<u16, String>)
    ensures
        match r {
            Ok(n) => clock_meaning(field@, text@) == Ok::<u16, Seq<char>>(n),
            Err(e) => clock_meaning(field@, text@) == Err::<u16, Seq<char>>(e@),
        },
{
    match text::parse_u16(field) {
        Some(n) => Ok(n),
        None => Err(complaint(text, field, "'")),
    }
}

/// Field `k`, or the default characters if there are not so many.
fn field_at(fields: &Vec<Vec<char>>, k: usize, default: &str, Ghost(words): Ghost<Seq<Seq<char>>>) -> (r:
    Vec<char>)
    requires
        fields@.len() == words.len(),
        forall|j: int| 0 <= j < fields@.len() ==> (#[trigger] fields@[j])@ == words[j],
    ensures
        r@ == field_or(words, k as int, default@),
{
    if k < fields.len() {
        let mut r: Vec<char> = Vec::new();
        let mut i: usize = 0;
        while i < fields[k].len()
            invariant
                k < fields@.len(),
                i <= fields@[k as int]@.len(),
                r@ == fields@[k as int]@.take(i as int),
            decreases fields@[k as int]@.len() - i,
        {
            r.push(fields[k][i]);
            i = i + 1;
            assert(r@ =~= fields@[k as int]@.take(i as int));
        }
        assert(r@ =~= fields@[k as int]@);
        r
    } else {
        text::chars_of(default)
    }
}

impl Position {
    /// Parse a FEN text.
    ///
    /// A missing side defaults to White, missing castling rights and en-passant
    /// square to none, a missing halfmove clock to 0 and a missing fullmove number
    /// to 1.
    pub fn from_fen(fen: &str) -> (r: Result<Position, String>)
        ensures
            match r {
                Ok(p) => p.wf() && p.keyed() && meaning(fen@) == Ok::<State, Seq<char>>(p@),
                Err(e) => meaning(fen@) == Err::<State, Seq<char>>(e@),
            },
            r matches Ok(p) ==> {
                let fields = text::words(fen@);
                let there = fields.len() > 2;
                &&& p@.castling & 1 != 0 <==> there && fields[2].contains('K')
                &&& p@.castling & 2 != 0 <==> there && fields[2].contains('Q')
                &&& p@.castling & 4 != 0 <==> there && fields[2].contains('k')
                &&& p@.castling & 8 != 0 <==> there && fields[2].contains('q')
            },
    {
        let chars: Vec<char> = text::chars_of(fen);
        let fields: Vec<Vec<char>> = text::split_whitespace(chars.as_slice());
        let ghost words = text::words(fen@);
        if fields.len() == 0 {
            return Err(message("FEN is empty"));
        }
        let mut pos: Position = match read_placement(fields[0].as_slice()) {
            Ok(p) => p,
            Err(e) => {
                return Err(e);
            },
        };
        let side: Color = match read_side(field_at(&fields, 1, "w", Ghost(words)).as_slice()) {
            Ok(side) => side,
            Err(e) => {
                return Err(e);
            },
        };
        let castling: u8 = match read_castling(
            field_at(&fields, 2, "-", Ghost(words)).as_slice(),
        ) {
            Ok(castling) => castling,
            Err(e) => {
                return Err(e);
            },
        };
        let ep: Option<Square> = match read_ep(field_at(&fields, 3, "-", Ghost(words)).as_slice()) {
            Ok(ep) => ep,
            Err(e) => {
                return Err(e);
            },
        };
        proof {
            reveal_strlit("0");
            reveal_strlit("1");
            assert("0"@ =~= seq!['0']);
            assert("1"@ =~= seq!['1']);
        }
        let half: u16 = match read_clock(
            field_at(&fields, 4, "0", Ghost(words)).as_slice(),
            "FEN halfmove clock is not a number: '",
        ) {
            Ok(half) => half,
            Err(e) => {
                return Err(e);
            },
        };
        let full: u16 = match read_clock(
            field_at(&fields, 5, "1", Ghost(words)).as_slice(),
            "FEN fullmove number is not a number: '",
        ) {
            Ok(full) => full,
            Err(e) => {
                return Err(e);
            },
        };
        pos.complete(side, castling, ep, half, if full == 0 { 1 } else { full });
        proof {
            law_castling_letters(fen@, pos@);
        }
        Ok(pos)
    }
}

// ---------------------------------------------------------------------------
// Writing.
// ---------------------------------------------------------------------------

/// Append the digit for a run of `n` empty squares, if there is a run.
fn push_run(s: &mut String, n: u8)
    requires
        n <= 8,
    ensures
        final(s)@ == old(s)@ + run(n as int),
{
    if n > 0 {
        s.push(text::digit(n));
    }
    assert(s@ =~= old(s)@ + run(n as int));
}

/// Append the letter of a right, if it is among `rights`.
fn push_right(s: &mut String, rights: u8, right: u8, c: char)
    ensures
        final(s)@ == old(s)@ + right_text(rights, right, c),
{
    if rights & right != 0 {
        s.push(c);
    }
    assert(s@ =~= old(s)@ + right_text(rights, right, c));
}

/// Append the castling field.
fn push_castling(s: &mut String, rights: u8)
    ensures
        final(s)@ == old(s)@ + castling_text(rights),
{
    if rights == 0 {
        s.push('-');
    } else {
        push_right(s, rights, WHITE_OO, 'K');
        push_right(s, rights, WHITE_OOO, 'Q');
        push_right(s, rights, BLACK_OO, 'k');
        push_right(s, rights, BLACK_OOO, 'q');
    }
    assert(s@ =~= old(s)@ + castling_text(rights));
}

impl Position {
    /// Append the text of one rank.
    fn push_rank(&self, s: &mut String, rank: u8)
        requires
            self.wf(),
            rank < 8,
        ensures
            final(s)@ == old(s)@ + rank_text(self@.board, rank as int, 0, 0),
    {
        let mut empties: u8 = 0;
        let mut file: u8 = 0;
        let ghost whole = old(s)@ + rank_text(self@.board, rank as int, 0, 0);
        while file < 8
            invariant
                self.wf(),
                rank < 8,
                empties <= file <= 8,
                whole == s@ + rank_text(self@.board, rank as int, file as int, empties as int),
            decreases 8 - file,
        {
            let ghost before = s@;
            match self.piece_at(Square::make(file, rank)) {
                Some(piece) => {
                    push_run(s, empties);
                    s.push(piece.to_char());
                    assert(before + (run(empties as int) + seq![piece.to_char()] + rank_text(
                        self@.board,
                        rank as int,
                        file + 1,
                        0,
                    )) =~= s@ + rank_text(self@.board, rank as int, file + 1, 0));
                    empties = 0;
                },
                None => {
                    empties = empties + 1;
                },
            }
            file = file + 1;
        }
        push_run(s, empties);
    }

    /// Append the placement field, rank 8 down to rank 1.
    fn push_placement(&self, s: &mut String)
        requires
            self.wf(),
        ensures
            final(s)@ == old(s)@ + ranks_text(self@.board, 7),
    {
        let mut rank: u8 = 7;
        let ghost whole = old(s)@ + ranks_text(self@.board, 7);
        while rank > 0
            invariant
                self.wf(),
                rank <= 7,
                whole == s@ + ranks_text(self@.board, rank as int),
            decreases rank,
        {
            let ghost before = s@;
            self.push_rank(s, rank);
            s.push('/');
            assert(before + (rank_text(self@.board, rank as int, 0, 0) + seq!['/'] + ranks_text(
                self@.board,
                rank - 1,
            )) =~= s@ + ranks_text(self@.board, rank - 1));
            rank = rank - 1;
        }
        self.push_rank(s, 0);
    }

    /// Render this position as a FEN text.
    pub fn to_fen(&self) -> (r: String)
        requires
            self.wf(),
        ensures
            r@ == fen_text(self@),
    {
        let mut fen: String = String::new();
        let ghost f0 = fields_of(self@);
        let ghost f1 = f0.drop_first();
        let ghost f2 = f1.drop_first();
        let ghost f3 = f2.drop_first();
        let ghost f4 = f3.drop_first();
        let ghost f5 = f4.drop_first();
        proof {
            assert(fen@ + text::joined(f0) =~= fen_text(self@));
            text::lemma_join_step(fen@, f0);
        }
        self.push_placement(&mut fen);
        fen.push(' ');
        proof {
            text::lemma_join_step(fen@, f1);
        }
        let ghost before = fen@;
        fen.push(
            match self.side_to_move() {
                Color::White => 'w',
                Color::Black => 'b',
            },
        );
        assert(fen@ =~= before + side_text(self@.side));
        fen.push(' ');
        proof {
            text::lemma_join_step(fen@, f2);
        }
        push_castling(&mut fen, self.castling_rights());
        fen.push(' ');
        proof {
            text::lemma_join_step(fen@, f3);
        }
        let ghost before = fen@;
        match self.en_passant() {
            Some(sq) => {
                text::push_text(&mut fen, sq.to_string().as_str());
            },
            None => {
                fen.push('-');
            },
        }
        assert(fen@ =~= before + ep_text(self@.ep));
        fen.push(' ');
        proof {
            text::lemma_join_step(fen@, f4);
        }
        text::push_decimal(&mut fen, self.halfmove_clock() as u64);
        fen.push(' ');
        assert(text::joined(f5) == text::decimal(self@.full as nat));
        text::push_decimal(&mut fen, self.fullmove_number() as u64);
        fen
    }

    /// The cell of a square in a diagram of the position.
    pub open spec fn cell(self, i: int) -> char {
        match self@.board[i] {
            Some(p) => p.to_char(),
            None => '.',
        }
    }

    /// A human-friendly board grid (rank 8 on top) plus the FEN on the last line.
    pub fn to_string(&self) -> (r: String)
        requires
            self.wf(),
        ensures
            r@ == text::diagram(Seq::new(64, |i: int| self.cell(i))) + "\nFEN: "@ + fen_text(self@),
    {
        let mut cells: Vec<char> = Vec::new();
        let mut i: u8 = 0;
        while i < 64
            invariant
                self.wf(),
                i <= 64,
                cells@ == Seq::new(i as nat, |j: int| self.cell(j)),
            decreases 64 - i,
        {
            cells.push(
                match self.piece_at(Square(i)) {
                    Some(piece) => piece.to_char(),
                    None => '.',
                },
            );
            i = i + 1;
            assert(cells@ =~= Seq::new(i as nat, |j: int| self.cell(j)));
        }
        let mut r: String = text::draw(cells.as_slice());
        text::push_text(&mut r, "\nFEN: ");
        text::push_text(&mut r, self.to_fen().as_str());
        r
    }

    /// The standard chess starting position.
    pub fn startpos() -> (r: Position)
        ensures
            r.wf(),
            r.keyed(),
            r@ == start(),
    {
        let mut pos: Position = Position::empty();
        let back: [PieceType; 8] = [
            PieceType::Rook,
            PieceType::Knight,
            PieceType::Bishop,
            PieceType::Queen,
            PieceType::King,
            PieceType::Bishop,
            PieceType::Knight,
            PieceType::Rook,
        ];
        let mut file: u8 = 0;
        while file < 8
            invariant
                file <= 8,
                pos.wf(),
                pos.key() == crate::state::board_hash(pos@.board, 64),
                forall|f: int| 0 <= f < 8 ==> #[trigger] back@[f] == back_rank(f),
                forall|i: int|
                    0 <= i < 64 ==> #[trigger] pos@.board[i] == (if i % 8 < file {
                        start_cell(i)
                    } else {
                        None
                    }),
            decreases 8 - file,
        {
            let piece_type: PieceType = back[file as usize];
            assert(piece_type == back_rank(file as int));
            pos.add_piece(Square::make(file, 0), Piece::new(Color::White, piece_type));
            pos.add_piece(Square::make(file, 1), Piece::new(Color::White, PieceType::Pawn));
            pos.add_piece(Square::make(file, 6), Piece::new(Color::Black, PieceType::Pawn));
            pos.add_piece(Square::make(file, 7), Piece::new(Color::Black, piece_type));
            file = file + 1;
        }
        assert(1u8 | 2u8 | 4u8 | 8u8 == 15) by (bit_vector);
        pos.complete(Color::White, WHITE_OO | WHITE_OOO | BLACK_OO | BLACK_OOO, None, 0, 1);
        proof {
            assert(pos@.board =~= start().board);
        }
        pos
    }
}

/// The piece type that starts on file `f` of the back ranks.
pub open spec fn back_rank(f: int) -> PieceType {
    if f == 0 || f == 7 {
        PieceType::Rook
    } else if f == 1 || f == 6 {
        PieceType::Knight
    } else if f == 2 || f == 5 {
        PieceType::Bishop
    } else if f == 3 {
        PieceType::Queen
    } else {
        PieceType::King
    }
}

/// What stands on square `i` at the start of a game.
pub open spec fn start_cell(i: int) -> Option<Piece> {
    if i / 8 == 0 {
        Some(Piece { color: Color::White, piece_type: back_rank(i % 8) })
    } else if i / 8 == 1 {
        Some(Piece { color: Color::White, piece_type: PieceType::Pawn })
    } else if i / 8 == 6 {
        Some(Piece { color: Color::Black, piece_type: PieceType::Pawn })
    } else if i / 8 == 7 {
        Some(Piece { color: Color::Black, piece_type: back_rank(i % 8) })
    } else {
        None
    }
}

/// The start of a game.
pub open spec fn start() -> State {
    State {
        board: Seq::new(64, |i: int| start_cell(i)),
        side: Color::White,
        castling: 15,
        ep: None,
        half: 0,
        full: 1,
    }
}

// ---------------------------------------------------------------------------
// The round trip.
// ---------------------------------------------------------------------------

/// The part of a board that has been read when the reader stands on `file` of
/// `rank`.
spec fn read_part(board: Seq<Option<Piece>>, rank: int, file: int) -> Seq<Option<Piece>> {
    Seq::new(
        64,
        |k: int|
            if k / 8 > rank || (k / 8 == rank && k % 8 < file) {
                board[k]
            } else {
                None
            },
    )
}

/// `part` stands in `whole` at index `i`.
spec fn stands_at(part: Seq<char>, whole: Seq<char>, i: int) -> bool {
    &&& 0 <= i
    &&& i + part.len() <= whole.len()
    &&& forall|j: int| 0 <= j < part.len() ==> #[trigger] part[j] == whole[i + j]
}

/// Reading a letter inverts writing it.
proof fn lemma_piece_of(p: Piece)
    ensures
        Piece::is_letter(p.to_char()),
        piece_of(p.to_char()) == p,
        p.to_char() != '/',
        !('1' <= p.to_char() <= '9'),
        !text::is_whitespace(p.to_char()),
{
    let q = piece_of(p.to_char());
    assert(q.to_char() == p.to_char());
}

/// Reading a run of empty squares.
proof fn lemma_read_run(t: Seq<char>, i: int, at: Cursor, n: int)
    requires
        0 <= n <= 8 - at.file,
        0 <= at.file,
        stands_at(run(n), t, i),
    ensures
        place(t, i, at) == place(t, i + run(n).len(), Cursor { file: at.file + n, ..at }),
{
    if n > 0 {
        assert(run(n)[0] == t[i]);
    } else {
        assert(at == Cursor { file: at.file + n, ..at });
    }
}

/// Reading the rest of a rank.
proof fn lemma_read_rank(
    t: Seq<char>,
    i: int,
    board: Seq<Option<Piece>>,
    rank: int,
    file: int,
    empties: int,
)
    requires
        board.len() == 64,
        0 <= rank < 8,
        0 <= empties <= file <= 8,
        stands_at(rank_text(board, rank, file, empties), t, i),
    ensures
        place(
            t,
            i,
            Cursor { board: read_part(board, rank, file), rank, file: file - empties },
        ) == place(
            t,
            i + rank_text(board, rank, file, empties).len(),
            Cursor { board: read_part(board, rank, 8), rank, file: 8 },
        ),
    decreases 8 - file,
{
    let at = Cursor { board: read_part(board, rank, file), rank, file: file - empties };
    let full = rank_text(board, rank, file, empties);
    if file >= 8 {
        lemma_read_run(t, i, at, empties);
    } else {
        match board[rank * 8 + file] {
            Some(p) => {
                let head = run(empties);
                let tail = rank_text(board, rank, file + 1, 0);
                assert(full =~= head + seq![p.to_char()] + tail);
                assert(stands_at(head, t, i)) by {
                    assert forall|j: int| 0 <= j < head.len() implies #[trigger] head[j] == t[i
                        + j] by {
                        assert(full[j] == head[j]);
                    }
                }
                lemma_read_run(t, i, at, empties);
                let i2 = i + head.len();
                assert(t[i2] == p.to_char()) by {
                    assert(full[head.len() as int] == p.to_char());
                }
                lemma_piece_of(p);
                assert(at.board.update(rank * 8 + file, Some(p)) =~= read_part(
                    board,
                    rank,
                    file + 1,
                ));
                assert(stands_at(tail, t, i2 + 1)) by {
                    assert forall|j: int| 0 <= j < tail.len() implies #[trigger] tail[j] == t[i2
                        + 1 + j] by {
                        assert(full[head.len() + 1 + j] == tail[j]);
                    }
                }
                lemma_read_rank(t, i2 + 1, board, rank, file + 1, 0);
            },
            None => {
                assert(read_part(board, rank, file + 1) =~= read_part(board, rank, file));
                lemma_read_rank(t, i, board, rank, file + 1, empties + 1);
            },
        }
    }
}

/// Reading the ranks from `rank` down.
proof fn lemma_read_ranks(t: Seq<char>, i: int, board: Seq<Option<Piece>>, rank: int)
    requires
        board.len() == 64,
        0 <= rank < 8,
        stands_at(ranks_text(board, rank), t, i),
        i + ranks_text(board, rank).len() == t.len(),
    ensures
        place(t, i, Cursor { board: read_part(board, rank, 0), rank, file: 0 }) == Ok::<
            Cursor,
            Seq<char>,
        >(Cursor { board, rank: 0, file: 8 }),
    decreases rank,
{
    let head = rank_text(board, rank, 0, 0);
    let full = ranks_text(board, rank);
    if rank == 0 {
        lemma_read_rank(t, i, board, 0, 0, 0);
        assert(read_part(board, 0, 8) =~= board);
    } else {
        let tail = ranks_text(board, rank - 1);
        assert(full =~= head + seq!['/'] + tail);
        assert(stands_at(head, t, i)) by {
            assert forall|j: int| 0 <= j < head.len() implies #[trigger] head[j] == t[i + j] by {
                assert(full[j] == head[j]);
            }
        }
        lemma_read_rank(t, i, board, rank, 0, 0);
        let i2 = i + head.len();
        assert(t[i2] == '/') by {
            assert(full[head.len() as int] == '/');
        }
        assert(read_part(board, rank, 8) =~= read_part(board, rank - 1, 0));
        assert(stands_at(tail, t, i2 + 1)) by {
            assert forall|j: int| 0 <= j < tail.len() implies #[trigger] tail[j] == t[i2 + 1
                + j] by {
                assert(full[head.len() + 1 + j] == tail[j]);
            }
        }
        lemma_read_ranks(t, i2 + 1, board, rank - 1);
    }
}

/// The placement field can be read back.
proof fn lemma_placement_round_trip(board: Seq<Option<Piece>>)
    requires
        board.len() == 64,
    ensures
        placement_meaning(ranks_text(board, 7)) == Ok::<Seq<Option<Piece>>, Seq<char>>(board),
{
    let t = ranks_text(board, 7);
    assert(read_part(board, 7, 0) =~= bare_board());
    lemma_read_ranks(t, 0, board, 7);
}

/// The text of a rank holds no white space.
proof fn lemma_rank_text_word(board: Seq<Option<Piece>>, rank: int, file: int, empties: int)
    requires
        0 <= empties <= file <= 8,
    ensures
        forall|j: int|
            0 <= j < rank_text(board, rank, file, empties).len() ==> !text::is_whitespace(
                #[trigger] rank_text(board, rank, file, empties)[j],
            ),
        file > 0 || empties > 0 || rank_text(board, rank, file, empties).len() > 0,
        empties > 0 ==> rank_text(board, rank, file, empties).len() > 0,
    decreases 8 - file,
{
    if file < 8 {
        match board[rank * 8 + file] {
            Some(p) => {
                lemma_piece_of(p);
                lemma_rank_text_word(board, rank, file + 1, 0);
                let full = rank_text(board, rank, file, empties);
                let head = run(empties) + seq![p.to_char()];
                let tail = rank_text(board, rank, file + 1, 0);
                assert(full =~= head + tail);
            },
            None => {
                lemma_rank_text_word(board, rank, file + 1, empties + 1);
            },
        }
    }
}

/// The placement field is a word.
proof fn lemma_ranks_text_word(board: Seq<Option<Piece>>, rank: int)
    ensures
        text::is_word(ranks_text(board, rank)),
    decreases rank,
{
    if rank <= 0 {
        lemma_rank_text_word(board, 0, 0, 0);
    } else {
        lemma_rank_text_word(board, rank, 0, 0);
        lemma_ranks_text_word(board, rank - 1);
        let head = rank_text(board, rank, 0, 0) + seq!['/'];
        let tail = ranks_text(board, rank - 1);
        assert(ranks_text(board, rank) =~= head + tail);
    }
}

/// The castling field is a word that can be read back.
proof fn lemma_castling_round_trip(rights: u8)
    requires
        rights < 16,
    ensures
        text::is_word(castling_text(rights)),
        castling_meaning(castling_text(rights)) == Ok::<u8, Seq<char>>(rights),
{
    reveal_strlit("-");
    let t = castling_text(rights);
    if rights == 0 {
        assert(t =~= "-"@);
    } else {
        assert(((rights & 1 != 0) || (rights & 2 != 0) || (rights & 4 != 0) || (rights & 8 != 0))
            && rights == (((0u8 | (if rights & 1 != 0 {
            1u8
        } else {
            0u8
        })) | (if rights & 2 != 0 {
            2u8
        } else {
            0u8
        })) | (if rights & 4 != 0 {
            4u8
        } else {
            0u8
        })) | (if rights & 8 != 0 {
            8u8
        } else {
            0u8
        })) by (bit_vector)
            requires
                0 < rights < 16,
        ;
        assert(forall|x: u8| #[trigger] (x | 0u8) == x) by (bit_vector);
        let a = right_text(rights, WHITE_OO, 'K');
        let b = right_text(rights, WHITE_OOO, 'Q');
        let c = right_text(rights, BLACK_OO, 'k');
        let d = right_text(rights, BLACK_OOO, 'q');
        assert(t =~= a + b + c + d);
        assert(t.len() == a.len() + b.len() + c.len() + d.len());
        lemma_right_read(t, 0, a, rights, WHITE_OO, 'K');
        lemma_right_read(t, a.len() as int, b, rights, WHITE_OOO, 'Q');
        lemma_right_read(t, (a.len() + b.len()) as int, c, rights, BLACK_OO, 'k');
        lemma_right_read(t, (a.len() + b.len() + c.len()) as int, d, rights, BLACK_OOO, 'q');
        assert(t[0] != '-');
    }
}

/// Reading the letter of one right, if it is there.
proof fn lemma_right_read(t: Seq<char>, i: int, part: Seq<char>, rights: u8, right: u8, c: char)
    requires
        0 <= i,
        i + part.len() <= t.len(),
        part == right_text(rights, right, c),
        right_of(c) == Some(right),
        part.len() > 0 ==> t[i] == c,
        rights_meaning(t, i) is Ok,
    ensures
        rights_meaning(t, i + part.len()) == Ok::<u8, Seq<char>>(
            rights_meaning(t, i)->Ok_0 | (if rights & right != 0 {
                right
            } else {
                0u8
            }),
        ),
{
    let x = rights_meaning(t, i)->Ok_0;
    assert(x | 0u8 == x) by (bit_vector);
}

/// A position is what its FEN describes, provided that its move number is not 0
/// (which is read as 1).
pub proof fn law_fen_round_trip(s: State)
    requires
        s.valid(),
        s.full > 0,
    ensures
        meaning(fen_text(s)) == Ok::<State, Seq<char>>(s),
{
    let f = fields_of(s);
    lemma_ranks_text_word(s.board, 7);
    lemma_castling_round_trip(s.castling);
    text::law_value_of_decimal(s.half as nat);
    text::law_value_of_decimal(s.full as nat);
    reveal_strlit("-");
    reveal_strlit("w");
    reveal_strlit("W");
    reveal_strlit("b");
    reveal_strlit("B");
    assert forall|k: int| 0 <= k < f.len() implies text::is_word(#[trigger] f[k]) by {
        assert(f[4] == text::decimal(s.half as nat));
        assert(f[5] == text::decimal(s.full as nat));
    }
    text::law_words_of_joined(Seq::empty(), f);
    assert(Seq::<char>::empty() + text::joined(f) =~= fen_text(s));
    assert(text::words(fen_text(s)) == f);
    lemma_placement_round_trip(s.board);
    assert(side_meaning(f[1]) == Ok::<Color, Seq<char>>(s.side)) by {
        assert(seq!['w'] =~= "w"@);
        assert(seq!['b'] =~= "b"@);
        assert("b"@[0] != "w"@[0]);
        assert("b"@[0] != "W"@[0]);
    }
    assert(ep_meaning(f[3]) == Ok::<Option<Square>, Seq<char>>(s.ep)) by {
        match s.ep {
            Some(q) => {
                assert(f[3] == q.name());
                assert(q.name().len() == 2);
                assert("-"@.len() == 1);
            },
            None => {
                assert(seq!['-'] =~= "-"@);
            },
        }
    }
    assert(clock_meaning(f[4], "FEN halfmove clock is not a number: '"@) == Ok::<u16, Seq<char>>(
        s.half,
    )) by {
        assert(f[4][0] != '+');
    }
    assert(clock_meaning(f[5], "FEN fullmove number is not a number: '"@) == Ok::<u16, Seq<char>>(
        s.full,
    )) by {
        assert(f[5][0] != '+');
    }
}

// ---------------------------------------------------------------------------
// What the letters say.
// ---------------------------------------------------------------------------

/// The squares that the first `n` characters of a placement lay out, one character
/// per square: a digit stands for that many dots, and a slash for nothing.
pub open spec fn laid_out(placement: Seq<char>, n: int) -> Seq<char>
    decreases n,
{
    if n <= 0 {
        Seq::empty()
    } else {
        let before = laid_out(placement, n - 1);
        let c = placement[n - 1];
        if c == '/' {
            before
        } else if '1' <= c <= '9' {
            before + Seq::new((c as int - '0' as int) as nat, |i: int| '.')
        } else {
            before.push(c)
        }
    }
}

/// How many of the first `n` characters are slashes.
pub open spec fn slashes(placement: Seq<char>, n: int) -> nat
    decreases n,
{
    if n <= 0 {
        0
    } else {
        slashes(placement, n - 1) + if placement[n - 1] == '/' {
            1nat
        } else {
            0nat
        }
    }
}

/// The letter of a piece type, in lower case.
pub open spec fn small_letter(pt: PieceType) -> char {
    match pt {
        PieceType::Pawn => 'p',
        PieceType::Knight => 'n',
        PieceType::Bishop => 'b',
        PieceType::Rook => 'r',
        PieceType::Queen => 'q',
        PieceType::King => 'k',
    }
}

/// The character shows what is in the cell: a dot for nothing, the small letter of
/// the type for a black piece, and the capital for a white one.
pub open spec fn shows(c: char, cell: Option<Piece>) -> bool {
    match cell {
        None => c == '.',
        Some(p) => match p.color {
            Color::Black => c == small_letter(p.piece_type),
            Color::White => c as int == small_letter(p.piece_type) as int - 32,
        },
    }
}

/// The letters of the pieces.
pub proof fn law_piece_letters(p: Piece)
    ensures
        shows(p.to_char(), Some(p)),
{
}

/// Where the reader stands after `n` characters, and what it has read by then.
spec fn has_read(placement: Seq<char>, n: int, at: Cursor) -> bool {
    let cells = laid_out(placement, n);
    &&& at.board.len() == 64
    &&& 0 <= at.rank <= 7
    &&& 0 <= at.file <= 8
    &&& at.rank == 7 - slashes(placement, n)
    &&& cells.len() == (7 - at.rank) * 8 + at.file
    &&& forall|k: int|
        #![trigger cells[k]]
        0 <= k < cells.len() ==> shows(cells[k], at.board[(7 - k / 8) * 8 + k % 8])
    &&& forall|k: int|
        cells.len() <= k < 64 ==> at.board[#[trigger] ((7 - k / 8) * 8 + k % 8)] is None
}

/// Character `n` of a placement can be read where it stands.
pub open spec fn fits(placement: Seq<char>, n: int) -> bool {
    let c = placement[n];
    let room = 8 * (slashes(placement, n) + 1);
    &&& c == '/' || '1' <= c <= '9' || (exists|pt: PieceType|
        c == #[trigger] small_letter(pt) || c as int == small_letter(pt) as int - 32)
    &&& c == '/' ==> laid_out(placement, n).len() == room && slashes(placement, n) < 7
    &&& laid_out(placement, n + 1).len() <= room
}

proof fn lemma_letters(c: char)
    ensures
        Piece::is_letter(c) <==> exists|pt: PieceType|
            c == #[trigger] small_letter(pt) || c as int == small_letter(pt) as int - 32,
        Piece::is_letter(c) ==> shows(c, Some(piece_of(c))),
{
    if Piece::is_letter(c) {
        let p = piece_of(c);
        assert(p.to_char() == c);
        assert(c == small_letter(p.piece_type) || c as int == small_letter(p.piece_type) as int
            - 32);
    }
    if exists|pt: PieceType|
        c == #[trigger] small_letter(pt) || c as int == small_letter(pt) as int - 32 {
        let pt = choose|pt: PieceType|
            c == #[trigger] small_letter(pt) || c as int == small_letter(pt) as int - 32;
        let black = Piece { color: Color::Black, piece_type: pt };
        let white = Piece { color: Color::White, piece_type: pt };
        assert(black.to_char() == c || white.to_char() == c);
    }
}

/// Reading one character.
proof fn lemma_reads_one(placement: Seq<char>, n: int, at: Cursor)
    requires
        0 <= n < placement.len(),
        has_read(placement, n, at),
    ensures
        place_one(placement, placement[n], at) is Ok <==> fits(placement, n),
        place_one(placement, placement[n], at) matches Ok(next) ==> has_read(
            placement,
            n + 1,
            next,
        ),
{
    let c = placement[n];
    let cells = laid_out(placement, n);
    let more = laid_out(placement, n + 1);
    lemma_letters(c);
    if c == '/' {
        assert(more == cells);
    } else if '1' <= c <= '9' {
        let d = c as int - 48;
        assert(more.len() == cells.len() + d);
        if let Ok(next) = place_one(placement, c, at) {
            assert forall|k: int| #![trigger more[k]] 0 <= k < more.len() implies shows(
                more[k],
                next.board[(7 - k / 8) * 8 + k % 8],
            ) by {
                if k < cells.len() {
                    assert(more[k] == cells[k]);
                } else {
                    assert(at.board[(7 - k / 8) * 8 + k % 8] is None);
                }
            }
        }
    } else {
        assert(more == cells.push(c));
        if let Ok(next) = place_one(placement, c, at) {
            let n0 = cells.len() as int;
            assert((7 - n0 / 8) * 8 + n0 % 8 == at.rank * 8 + at.file);
            assert forall|k: int| #![trigger more[k]] 0 <= k < more.len() implies shows(
                more[k],
                next.board[(7 - k / 8) * 8 + k % 8],
            ) by {
                if k < n0 {
                    assert(more[k] == cells[k]);
                    assert((7 - k / 8) * 8 + k % 8 != at.rank * 8 + at.file);
                }
            }
            assert forall|k: int| more.len() <= k < 64 implies next.board[#[trigger] ((7 - k / 8)
                * 8 + k % 8)] is None by {
                assert((7 - k / 8) * 8 + k % 8 != at.rank * 8 + at.file);
                assert(at.board[(7 - k / 8) * 8 + k % 8] is None);
            }
        }
    }
}

proof fn lemma_reads_all(placement: Seq<char>, n: int, at: Cursor)
    requires
        0 <= n <= placement.len(),
        has_read(placement, n, at),
    ensures
        place(placement, n, at) is Ok <==> forall|i: int|
            n <= i < placement.len() ==> #[trigger] fits(placement, i),
        place(placement, n, at) matches Ok(end) ==> has_read(
            placement,
            placement.len() as int,
            end,
        ),
    decreases placement.len() - n,
{
    if n < placement.len() {
        lemma_reads_one(placement, n, at);
        if let Ok(next) = place_one(placement, placement[n], at) {
            lemma_reads_all(placement, n + 1, next);
            assert(fits(placement, n));
            if forall|i: int| n + 1 <= i < placement.len() ==> #[trigger] fits(placement, i) {
                assert forall|i: int| n <= i < placement.len() implies #[trigger] fits(
                    placement,
                    i,
                ) by {}
            }
        } else {
            assert(!fits(placement, n));
        }
    }
}

/// A placement is read exactly if it lays out eight ranks of eight squares, with a
/// slash after each rank but the last; and what it lays out, from a8 to h8 and so
/// down to h1, is what the board then shows.
pub proof fn law_placement_is_shown(placement: Seq<char>)
    ensures
        placement_meaning(placement) is Ok <==> {
            &&& laid_out(placement, placement.len() as int).len() == 64
            &&& slashes(placement, placement.len() as int) == 7
            &&& forall|i: int| 0 <= i < placement.len() ==> #[trigger] fits(placement, i)
        },
        placement_meaning(placement) matches Ok(board) ==> board.len() == 64 && forall|
            file: int,
            rank: int,
        |
            0 <= file < 8 && 0 <= rank < 8 ==> shows(
                laid_out(placement, placement.len() as int)[(7 - rank) * 8 + file],
                #[trigger] board[rank * 8 + file],
            ),
{
    let at = Cursor { board: bare_board(), rank: 7, file: 0 };
    let n = placement.len() as int;
    assert(has_read(placement, 0, at));
    lemma_reads_all(placement, 0, at);
    let cells = laid_out(placement, n);
    if let Ok(end) = place(placement, 0, at) {
        assert((end.rank == 0 && end.file == 8) <==> (cells.len() == 64 && slashes(placement, n)
            == 7));
        if end.rank == 0 && end.file == 8 {
            assert forall|file: int, rank: int| 0 <= file < 8 && 0 <= rank < 8 implies shows(
                cells[(7 - rank) * 8 + file],
                #[trigger] end.board[rank * 8 + file],
            ) by {
                let k = (7 - rank) * 8 + file;
                assert(k / 8 == 7 - rank && k % 8 == file);
                assert(shows(cells[k], end.board[(7 - k / 8) * 8 + k % 8]));
            }
        }
    }
}

proof fn lemma_no_rights()
    by (bit_vector)
    ensures
        0u8 & 1 == 0 && 0u8 & 2 == 0 && 0u8 & 4 == 0 && 0u8 & 8 == 0,
{
}

/// What the rights read so far say of the letters read so far.
proof fn lemma_rights_read(field: Seq<char>, n: int)
    requires
        0 <= n <= field.len(),
    ensures
        rights_meaning(field, n) is Ok <==> forall|i: int|
            0 <= i < n ==> (#[trigger] field[i] == 'K' || field[i] == 'Q' || field[i] == 'k'
                || field[i] == 'q'),
        rights_meaning(field, n) matches Ok(r) ==> {
            &&& r < 16
            &&& r & 1 != 0 <==> field.take(n).contains('K')
            &&& r & 2 != 0 <==> field.take(n).contains('Q')
            &&& r & 4 != 0 <==> field.take(n).contains('k')
            &&& r & 8 != 0 <==> field.take(n).contains('q')
        },
    decreases n,
{
    if n == 0 {
        lemma_no_rights();
    } else {
        lemma_rights_read(field, n - 1);
        let c = field[n - 1];
        let before = field.take(n - 1);
        let now = field.take(n);
        assert(now =~= before.push(c));
        assert forall|x: char| #[trigger] now.contains(x) <==> before.contains(x) || x == c by {
            if before.contains(x) {
                let i = choose|i: int| 0 <= i < before.len() && before[i] == x;
                assert(now[i] == x);
            }
            if now.contains(x) && x != c {
                let i = choose|i: int| 0 <= i < now.len() && now[i] == x;
                assert(before[i] == x);
            }
            assert(now[n - 1] == c);
        }
        if let Ok(r) = rights_meaning(field, n - 1) {
            assert(r < 16 ==> r | 1 < 16 && r | 2 < 16 && r | 4 < 16 && r | 8 < 16 && (r | 1) & 1
                != 0 && (r | 1) & 2 == r & 2 && (r | 1) & 4 == r & 4 && (r | 1) & 8 == r & 8 && (r
                | 2) & 2 != 0 && (r | 2) & 1 == r & 1 && (r | 2) & 4 == r & 4 && (r | 2) & 8 == r
                & 8 && (r | 4) & 4 != 0 && (r | 4) & 1 == r & 1 && (r | 4) & 2 == r & 2 && (r | 4)
                & 8 == r & 8 && (r | 8) & 8 != 0 && (r | 8) & 1 == r & 1 && (r | 8) & 2 == r & 2
                && (r | 8) & 4 == r & 4) by (bit_vector);
        }
    }
}

/// The castling field grants the right to castle king-side and queen-side to White
/// by the letters K and Q and to Black by k and q: exactly those that it holds.
pub proof fn law_castling_letters(fen: Seq<char>, s: State)
    requires
        meaning(fen) == Ok::<State, Seq<char>>(s),
    ensures
        ({
            let fields = text::words(fen);
            let there = fields.len() > 2;
            &&& s.castling < 16
            &&& s.castling & 1 != 0 <==> there && fields[2].contains('K')
            &&& s.castling & 2 != 0 <==> there && fields[2].contains('Q')
            &&& s.castling & 4 != 0 <==> there && fields[2].contains('k')
            &&& s.castling & 8 != 0 <==> there && fields[2].contains('q')
        }),
{
    let fields = text::words(fen);
    let field = field_or(fields, 2, "-"@);
    reveal_strlit("-");
    lemma_no_rights();
    if field == "-"@ {
        assert(field.len() == 1 && field[0] == '-');
        assert(!field.contains('K') && !field.contains('Q') && !field.contains('k')
            && !field.contains('q'));
    } else {
        lemma_rights_read(field, field.len() as int);
        assert(field.take(field.len() as int) =~= field);
    }
}

/// The castling field of a position's text holds exactly the letters of its rights.
pub proof fn law_written_castling_letters(s: State)
    requires
        s.valid(),
    ensures
        ({
            let field = text::words(fen_text(s))[2];
            &&& field.contains('K') <==> s.castling & 1 != 0
            &&& field.contains('Q') <==> s.castling & 2 != 0
            &&& field.contains('k') <==> s.castling & 4 != 0
            &&& field.contains('q') <==> s.castling & 8 != 0
            &&& field.contains('-') <==> s.castling == 0
        }),
{
    law_fen_is_canonical(s);
    lemma_castling_round_trip(s.castling);
    let field = castling_text(s.castling);
    assert(field == text::words(fen_text(s))[2]);
    reveal_strlit("-");
    lemma_no_rights();
    if s.castling == 0 {
        assert(field =~= "-"@);
        assert(field[0] == '-');
        assert(!field.contains('K') && !field.contains('Q') && !field.contains('k')
            && !field.contains('q'));
    } else {
        lemma_rights_read(field, field.len() as int);
        assert(field.take(field.len() as int) =~= field);
        if field == "-"@ {
            assert(field[0] == '-');
        }
    }
}

/// White is to move if the second field is w or W or is missing, and Black if it is
/// b or B; nothing else is read.
pub proof fn law_side_letter(fen: Seq<char>, s: State)
    requires
        meaning(fen) == Ok::<State, Seq<char>>(s),
    ensures
        ({
            let fields = text::words(fen);
            &&& s.side == Color::White <==> fields.len() <= 1 || fields[1] == seq!['w'] || fields[1]
                == seq!['W']
            &&& s.side == Color::Black <==> fields.len() > 1 && (fields[1] == seq!['b'] || fields[1]
                == seq!['B'])
        }),
{
    reveal_strlit("w");
    reveal_strlit("W");
    reveal_strlit("b");
    reveal_strlit("B");
    assert("w"@ =~= seq!['w'] && "W"@ =~= seq!['W'] && "b"@ =~= seq!['b'] && "B"@ =~= seq!['B']);
    assert(seq!['w'][0] == 'w' && seq!['W'][0] == 'W' && seq!['b'][0] == 'b' && seq!['B'][0]
        == 'B');
}

/// The fourth field names the en-passant target by the letter of its file and the
/// digit of its rank; without a target it is a dash or missing.
pub proof fn law_target_name(fen: Seq<char>, s: State)
    requires
        meaning(fen) == Ok::<State, Seq<char>>(s),
    ensures
        ({
            let fields = text::words(fen);
            &&& s.ep is None <==> fields.len() <= 3 || fields[3] == seq!['-']
            &&& s.ep matches Some(q) ==> {
                &&& q.0 < 64
                &&& fields[3].len() == 2
                &&& fields[3][0] as int == 'a' as int + q.0 as int % 8
                &&& fields[3][1] as int == '1' as int + q.0 as int / 8
            }
        }),
{
    reveal_strlit("-");
    assert("-"@ =~= seq!['-']);
}

/// The last two fields hold the halfmove clock, 0 if missing, and the move number,
/// 1 if missing or 0.
pub proof fn law_clock_fields(fen: Seq<char>, s: State)
    requires
        meaning(fen) == Ok::<State, Seq<char>>(s),
    ensures
        ({
            let fields = text::words(fen);
            let number = |k: int| text::value(text::unsigned(fields[k]));
            &&& s.half == (if fields.len() <= 4 {
                0
            } else {
                number(4)
            })
            &&& s.full == (if fields.len() <= 5 || number(5) == 0 {
                1
            } else {
                number(5)
            })
        }),
{
    let zero = seq!['0'];
    let one = seq!['1'];
    reveal_with_fuel(text::value, 2);
    assert(text::unsigned(zero) == zero && text::unsigned(one) == one);
    assert(zero.drop_last() =~= Seq::<char>::empty() && one.drop_last() =~= Seq::<char>::empty());
    assert(zero.last() == '0' && one.last() == '1');
}

/// A text is read as a position exactly if each field that it has makes sense:
/// the placement lays out a board, the side is one letter, the castling field is a
/// dash or holds only the four letters, the target is a dash or a square, and the
/// clocks are numbers below 65536.
pub proof fn law_what_is_read(fen: Seq<char>)
    ensures
        ({
            let fields = text::words(fen);
            meaning(fen) is Ok <==> {
                &&& fields.len() > 0
                &&& placement_meaning(fields[0]) is Ok
                &&& fields.len() > 1 ==> fields[1].len() == 1 && (fields[1][0] == 'w'
                    || fields[1][0] == 'W' || fields[1][0] == 'b' || fields[1][0] == 'B')
                &&& fields.len() > 2 ==> fields[2] == seq!['-'] || forall|i: int|
                    0 <= i < fields[2].len() ==> (#[trigger] fields[2][i] == 'K' || fields[2][i]
                        == 'Q' || fields[2][i] == 'k' || fields[2][i] == 'q')
                &&& fields.len() > 3 ==> fields[3] == seq!['-'] || (fields[3].len() == 2 && 'a'
                    <= fields[3][0] <= 'h' && '1' <= fields[3][1] <= '8')
                &&& fields.len() > 4 ==> text::is_number(text::unsigned(fields[4]))
                    && text::value(text::unsigned(fields[4])) < 65536
                &&& fields.len() > 5 ==> text::is_number(text::unsigned(fields[5]))
                    && text::value(text::unsigned(fields[5])) < 65536
            }
        }),
{
    let fields = text::words(fen);
    reveal_strlit("-");
    reveal_strlit("w");
    reveal_strlit("W");
    reveal_strlit("b");
    reveal_strlit("B");
    assert("-"@ =~= seq!['-']);
    assert("w"@ =~= seq!['w'] && "W"@ =~= seq!['W'] && "b"@ =~= seq!['b'] && "B"@ =~= seq!['B']);
    assert(seq!['w'][0] == 'w' && seq!['W'][0] == 'W' && seq!['b'][0] == 'b' && seq!['B'][0]
        == 'B');
    if fields.len() > 1 {
        let f = fields[1];
        if f.len() == 1 {
            assert(f =~= seq![f[0]]);
        }
    }
    if fields.len() > 2 {
        lemma_rights_read(fields[2], fields[2].len() as int);
    }
    let zero = seq!['0'];
    let one = seq!['1'];
    reveal_with_fuel(text::value, 2);
    assert(text::unsigned(zero) == zero && text::unsigned(one) == one);
    assert(zero.drop_last() =~= Seq::<char>::empty() && one.drop_last() =~= Seq::<char>::empty());
    assert(zero.last() == '0' && one.last() == '1');
    assert(text::is_number(zero) && text::is_number(one));
}

/// No digit follows another.
spec fn counted_together(t: Seq<char>) -> bool {
    forall|i: int, j: int|
        #![trigger t[i], t[j]]
        0 <= i && j == i + 1 && j < t.len() ==> !(text::is_digit(t[i]) && text::is_digit(t[j]))
}

/// Texts can be put together around a character that is no digit.
proof fn lemma_counted_together(a: Seq<char>, c: char, b: Seq<char>)
    requires
        counted_together(a),
        counted_together(b),
        !text::is_digit(c),
    ensures
        counted_together(a + seq![c] + b),
{
    let full = a + seq![c] + b;
    let n = a.len() as int;
    assert forall|i: int, j: int|
        #![trigger full[i], full[j]]
        0 <= i && j == i + 1 && j < full.len() implies !(text::is_digit(full[i])
        && text::is_digit(full[j])) by {
        if j < n {
            assert(full[i] == a[i] && full[j] == a[j]);
        }
        if i > n {
            assert(full[i] == b[i - n - 1] && full[j] == b[j - n - 1]);
        }
    }
}

proof fn lemma_rank_text_runs(board: Seq<Option<Piece>>, rank: int, file: int, empties: int)
    requires
        0 <= empties <= file <= 8,
    ensures
        counted_together(rank_text(board, rank, file, empties)),
    decreases 8 - file,
{
    if file < 8 {
        match board[rank * 8 + file] {
            Some(p) => {
                lemma_rank_text_runs(board, rank, file + 1, 0);
                lemma_counted_together(
                    run(empties),
                    p.to_char(),
                    rank_text(board, rank, file + 1, 0),
                );
            },
            None => {
                lemma_rank_text_runs(board, rank, file + 1, empties + 1);
            },
        }
    }
}

proof fn lemma_ranks_text_runs(board: Seq<Option<Piece>>, rank: int)
    ensures
        counted_together(ranks_text(board, rank)),
    decreases rank,
{
    if rank <= 0 {
        lemma_rank_text_runs(board, 0, 0, 0);
    } else {
        lemma_rank_text_runs(board, rank, 0, 0);
        lemma_ranks_text_runs(board, rank - 1);
        lemma_counted_together(
            rank_text(board, rank, 0, 0),
            '/',
            ranks_text(board, rank - 1),
        );
    }
}

/// The text of a position is the shortest of its kind: it has six fields, empty
/// squares are counted together, each right is named once, in the order K, Q, k, q,
/// the side is a small letter, and numbers have no leading zeros.
pub proof fn law_fen_is_canonical(s: State)
    requires
        s.valid(),
    ensures
        ({
            let fields = text::words(fen_text(s));
            let order = |c: char|
                if c == 'K' {
                    0int
                } else if c == 'Q' {
                    1int
                } else if c == 'k' {
                    2int
                } else {
                    3int
                };
            &&& fields.len() == 6
            &&& forall|i: int, j: int|
                #![trigger fields[0][i], fields[0][j]]
                0 <= i && j == i + 1 && j < fields[0].len() ==> !(text::is_digit(fields[0][i])
                    && text::is_digit(fields[0][j]))
            &&& fields[1] == seq!['w'] || fields[1] == seq!['b']
            &&& forall|i: int, j: int|
                #![trigger fields[2][i], fields[2][j]]
                0 <= i < j < fields[2].len() ==> order(fields[2][i]) < order(fields[2][j])
            &&& fields[2] == castling_text(s.castling)
            &&& fields[4] == text::decimal(s.half as nat)
            &&& fields[5] == text::decimal(s.full as nat)
        }),
{
    let f = fields_of(s);
    lemma_ranks_text_word(s.board, 7);
    lemma_castling_round_trip(s.castling);
    text::law_value_of_decimal(s.half as nat);
    text::law_value_of_decimal(s.full as nat);
    assert forall|k: int| 0 <= k < f.len() implies text::is_word(#[trigger] f[k]) by {
        assert(f[4] == text::decimal(s.half as nat));
        assert(f[5] == text::decimal(s.full as nat));
    }
    text::law_words_of_joined(Seq::empty(), f);
    assert(Seq::<char>::empty() + text::joined(f) =~= fen_text(s));
    assert(text::words(fen_text(s)) == f);
    lemma_ranks_text_runs(s.board, 7);
}

} // verus!
