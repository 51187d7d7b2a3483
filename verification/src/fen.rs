//! Forsyth-Edwards Notation (FEN): a full board position as one line of text
//! with six fields: piece placement, side to move, castling rights, en
//! passant target square, halfmove clock and fullmove number.

use vstd::prelude::*;

use crate::san::{
    append_quoted, append_quoted_char, coord_in, quoted, square_of_coord, Piece, Square,
};
use crate::text::{
    append_char, chars_of, decimal_text, digit_of, digit_value, is_ascii_digit,
    is_ascii_uppercase, is_digit, parse_u32, pieces, push_char, push_decimal, split_at_char,
    split_whitespace, string_of, texts, u32_of_text, words,
};

verus! {

#[derive(Debug, Clone, Copy, PartialEq, Eq, Structural)]
pub enum Color {
    White,
    Black,
}

impl Color {
    /// The side a FEN side-to-move letter names.
    pub open spec fn from_letter(c: char) -> Option<Color> {
        match c {
            'w' => Some(Color::White),
            'b' => Some(Color::Black),
            _ => None,
        }
    }

    pub open spec fn letter(self) -> char {
        match self {
            Color::White => 'w',
            Color::Black => 'b',
        }
    }

    pub fn from_char(c: char) -> (r: Option<Color>)
        ensures
            r == Color::from_letter(c),
    {
        match c {
            'w' => Some(Color::White),
            'b' => Some(Color::Black),
            _ => None,
        }
    }

    pub fn to_char(self) -> (c: char)
        ensures
            c == self.letter(),
    {
        match self {
            Color::White => 'w',
            Color::Black => 'b',
        }
    }
}

/// The piece and colour a FEN placement letter names: capitals are white,
/// lower-case letters black.
pub open spec fn piece_of_fen_char(c: char) -> Option<(Piece, Color)> {
    match c {
        'P' => Some((Piece::Pawn, Color::White)),
        'N' => Some((Piece::Knight, Color::White)),
        'B' => Some((Piece::Bishop, Color::White)),
        'R' => Some((Piece::Rook, Color::White)),
        'Q' => Some((Piece::Queen, Color::White)),
        'K' => Some((Piece::King, Color::White)),
        'p' => Some((Piece::Pawn, Color::Black)),
        'n' => Some((Piece::Knight, Color::Black)),
        'b' => Some((Piece::Bishop, Color::Black)),
        'r' => Some((Piece::Rook, Color::Black)),
        'q' => Some((Piece::Queen, Color::Black)),
        'k' => Some((Piece::King, Color::Black)),
        _ => None,
    }
}

/// The FEN placement letter of a piece of a colour.
pub open spec fn fen_char_of(piece: Piece, color: Color) -> char {
    match (piece, color) {
        (Piece::Pawn, Color::White) => 'P',
        (Piece::Knight, Color::White) => 'N',
        (Piece::Bishop, Color::White) => 'B',
        (Piece::Rook, Color::White) => 'R',
        (Piece::Queen, Color::White) => 'Q',
        (Piece::King, Color::White) => 'K',
        (Piece::Pawn, Color::Black) => 'p',
        (Piece::Knight, Color::Black) => 'n',
        (Piece::Bishop, Color::Black) => 'b',
        (Piece::Rook, Color::Black) => 'r',
        (Piece::Queen, Color::Black) => 'q',
        (Piece::King, Color::Black) => 'k',
    }
}

/// `char::to_ascii_uppercase`.
pub open spec fn ascii_upper(c: char) -> char {
    if 'a' <= c && c <= 'z' {
        (c as int - 32) as char
    } else {
        c
    }
}

fn to_ascii_uppercase(c: char) -> (r: char)
    ensures
        r == ascii_upper(c),
{
    if 'a' <= c && c <= 'z' {
        ((c as u32) - 32) as u8 as char
    } else {
        c
    }
}

/// The piece and colour that a FEN placement letter stands for.
pub fn piece_from_fen_char(c: char) -> (r: Option<(Piece, Color)>)
    ensures
        r == piece_of_fen_char(c),
{
    let color = if is_ascii_uppercase(c) {
        Color::White
    } else {
        Color::Black
    };
    let piece = match to_ascii_uppercase(c) {
        'P' => Piece::Pawn,
        'N' => Piece::Knight,
        'B' => Piece::Bishop,
        'R' => Piece::Rook,
        'Q' => Piece::Queen,
        'K' => Piece::King,
        _ => {
            return None;
        },
    };
    Some((piece, color))
}

/// The FEN placement letter of a piece of a colour.
pub fn piece_to_fen_char(piece: Piece, color: Color) -> (c: char)
    ensures
        c == fen_char_of(piece, color),
{
    let ch = match piece {
        Piece::Pawn => 'p',
        Piece::Knight => 'n',
        Piece::Bishop => 'b',
        Piece::Rook => 'r',
        Piece::Queen => 'q',
        Piece::King => 'k',
    };
    match color {
        Color::White => to_ascii_uppercase(ch),
        Color::Black => ch,
    }
}

/// Reading a placement letter back gives the piece and colour it was written for.
pub proof fn lemma_fen_char(piece: Piece, color: Color)
    ensures
        piece_of_fen_char(fen_char_of(piece, color)) == Some((piece, color)),
{
}

/// A placement letter that names a piece and colour is the letter written for them.
pub proof fn lemma_fen_char_named(ch: char)
    ensures
        piece_of_fen_char(ch) matches Some((piece, color)) ==> fen_char_of(piece, color) == ch,
{
}


#[derive(Debug, Clone, PartialEq, Eq)]
pub enum FenError {
    WrongFieldCount(usize),
    WrongRankCount(usize),
    RankTooLong(String),
    RankTooShort(String),
    InvalidPieceChar(char),
    BadSideToMove(String),
    BadCastling(String),
    BadEnPassant(String),
    BadHalfmoveClock(String),
    BadFullmoveNumber(String),
}

/// A `FenError` with its text fields taken as character sequences.
pub enum FenErrorView {
    WrongFieldCount(nat),
    WrongRankCount(nat),
    RankTooLong(Seq<char>),
    RankTooShort(Seq<char>),
    InvalidPieceChar(char),
    BadSideToMove(Seq<char>),
    BadCastling(Seq<char>),
    BadEnPassant(Seq<char>),
    BadHalfmoveClock(Seq<char>),
    BadFullmoveNumber(Seq<char>),
}

impl View for FenError {
    type V = FenErrorView;

    open spec fn view(&self) -> FenErrorView {
        match self {
            FenError::WrongFieldCount(n) => FenErrorView::WrongFieldCount(*n as nat),
            FenError::WrongRankCount(n) => FenErrorView::WrongRankCount(*n as nat),
            FenError::RankTooLong(s) => FenErrorView::RankTooLong(s@),
            FenError::RankTooShort(s) => FenErrorView::RankTooShort(s@),
            FenError::InvalidPieceChar(c) => FenErrorView::InvalidPieceChar(*c),
            FenError::BadSideToMove(s) => FenErrorView::BadSideToMove(s@),
            FenError::BadCastling(s) => FenErrorView::BadCastling(s@),
            FenError::BadEnPassant(s) => FenErrorView::BadEnPassant(s@),
            FenError::BadHalfmoveClock(s) => FenErrorView::BadHalfmoveClock(s@),
            FenError::BadFullmoveNumber(s) => FenErrorView::BadFullmoveNumber(s@),
        }
    }
}

/// `count` empty squares.
pub open spec fn empty_cells(count: nat) -> Seq<Option<(Piece, Color)>> {
    Seq::new(count, |i: int| None)
}

/// Reads the rest `rest` of the rank text `rank`, where `row` holds the
/// squares already read (from file a on). A digit stands for that many empty
/// squares (`0` is refused); a letter for a piece; a rank never runs past
/// eight squares.
pub open spec fn rank_cells_from(rest: Seq<char>, row: Seq<Option<(Piece, Color)>>, rank: Seq<
    char,
>) -> Result<Seq<Option<(Piece, Color)>>, FenErrorView>
    decreases rest.len(),
{
    if rest.len() == 0 {
        Ok(row)
    } else {
        let c = rest[0];
        if is_digit(c) {
            let k = digit_value(c);
            if k == 0 || row.len() + k > 8 {
                Err(FenErrorView::RankTooLong(rank))
            } else {
                rank_cells_from(rest.drop_first(), row + empty_cells(k), rank)
            }
        } else {
            match piece_of_fen_char(c) {
                None => Err(FenErrorView::InvalidPieceChar(c)),
                Some(pc) => if row.len() >= 8 {
                    Err(FenErrorView::RankTooLong(rank))
                } else {
                    rank_cells_from(rest.drop_first(), row.push(Some(pc)), rank)
                },
            }
        }
    }
}

/// The eight squares, from file a to file h, that one rank of the placement
/// field describes.
pub open spec fn rank_cells(rank: Seq<char>) -> Result<Seq<Option<(Piece, Color)>>, FenErrorView> {
    match rank_cells_from(rank, seq![], rank) {
        Err(e) => Err(e),
        Ok(row) => if row.len() != 8 {
            Err(FenErrorView::RankTooShort(rank))
        } else {
            Ok(row)
        },
    }
}

/// Reads one rank of the placement field.
fn parse_rank(rank: &Vec<char>) -> (r: Result<Vec<Option<(Piece, Color)>>, FenError>)
    ensures
        match r {
            Ok(row) => rank_cells(rank@) == Ok::<Seq<Option<(Piece, Color)>>, FenErrorView>(row@),
            Err(e) => rank_cells(rank@) == Err::<Seq<Option<(Piece, Color)>>, FenErrorView>(e@),
        },
{
    let n = rank.len();
    let mut row: Vec<Option<(Piece, Color)>> = Vec::new();
    let mut i: usize = 0;
    let ghost whole = rank@;
    assert(whole.skip(0) == whole);
    while i < n
        invariant
            n == whole.len(),
            whole == rank@,
            i <= n,
            row@.len() <= 8,
            rank_cells_from(whole.skip(i as int), row@, whole) == rank_cells_from(whole, seq![], whole),
        decreases n - i,
    {
        let c = rank[i];
        assert(whole.skip(i as int)[0] == c);
        assert(whole.skip(i as int).drop_first() == whole.skip(i + 1));
        if is_ascii_digit(c) {
            let k = digit_of(c) as usize;
            if k == 0 || row.len() + k > 8 {
                let text = string_of(rank, 0, n);
                assert(whole.subrange(0, n as int) == whole);
                return Err(FenError::RankTooLong(text));
            }
            let ghost before = row@;
            let mut j: usize = 0;
            while j < k
                invariant
                    j <= k,
                    row@ == before + empty_cells(j as nat),
                decreases k - j,
            {
                row.push(None);
                j += 1;
                assert(row@ =~= before + empty_cells(j as nat));
            }
        } else {
            match piece_from_fen_char(c) {
                None => {
                    return Err(FenError::InvalidPieceChar(c));
                },
                Some(pc) => {
                    if row.len() >= 8 {
                        let text = string_of(rank, 0, n);
                        assert(whole.subrange(0, n as int) == whole);
                        return Err(FenError::RankTooLong(text));
                    }
                    row.push(Some(pc));
                },
            }
        }
        i += 1;
    }
    assert(whole.skip(n as int) == Seq::<char>::empty());
    if row.len() != 8 {
        let text = string_of(rank, 0, n);
        assert(whole.subrange(0, n as int) == whole);
        return Err(FenError::RankTooShort(text));
    }
    Ok(row)
}


/// The rows that the rank texts `ranks` describe, read in order; the first
/// rank that cannot be read is the error.
pub open spec fn rows_of(ranks: Seq<Seq<char>>) -> Result<Seq<Seq<Option<(Piece, Color)>>>, FenErrorView>
    decreases ranks.len(),
{
    if ranks.len() == 0 {
        Ok(seq![])
    } else {
        match rows_of(ranks.drop_last()) {
            Err(e) => Err(e),
            Ok(rows) => match rank_cells(ranks.last()) {
                Err(e) => Err(e),
                Ok(row) => Ok(rows.push(row)),
            },
        }
    }
}

/// The 64 squares, indexed `rank * 8 + file`, of eight rows listed from rank
/// 8 down to rank 1.
pub open spec fn squares_of_rows(rows: Seq<Seq<Option<(Piece, Color)>>>) -> Seq<
    Option<(Piece, Color)>,
> {
    Seq::new(64, |k: int| rows[7 - k / 8][k % 8])
}

/// The squares that a placement field describes: eight ranks separated by
/// `/`, from rank 8 down to rank 1.
pub open spec fn placement_of(field: Seq<char>) -> Result<Seq<Option<(Piece, Color)>>, FenErrorView> {
    let ranks = pieces(field, '/');
    if ranks.len() != 8 {
        Err(FenErrorView::WrongRankCount(ranks.len()))
    } else {
        match rows_of(ranks) {
            Err(e) => Err(e),
            Ok(rows) => Ok(squares_of_rows(rows)),
        }
    }
}

pub open spec fn rows_view(rows: Seq<Vec<Option<(Piece, Color)>>>) -> Seq<Seq<Option<(Piece, Color)>>> {
    rows.map_values(|r: Vec<Option<(Piece, Color)>>| r@)
}

fn parse_piece_placement(field: &Vec<char>) -> (r: Result<[Option<(Piece, Color)>; 64], FenError>)
    ensures
        match r {
            Ok(sq) => placement_of(field@) == Ok::<Seq<Option<(Piece, Color)>>, FenErrorView>(sq@),
            Err(e) => placement_of(field@) == Err::<Seq<Option<(Piece, Color)>>, FenErrorView>(e@),
        },
{
    let ranks = split_at_char(field, '/');
    let ghost rk = texts(ranks@);
    if ranks.len() != 8 {
        return Err(FenError::WrongRankCount(ranks.len()));
    }
    let mut rows: Vec<Vec<Option<(Piece, Color)>>> = Vec::new();
    let mut i: usize = 0;
    assert(rk.take(0) =~= Seq::<Seq<char>>::empty());
    assert(rows_view(rows@) =~= Seq::<Seq<Option<(Piece, Color)>>>::empty());
    while i < 8
        invariant
            i <= 8,
            ranks@.len() == 8,
            rk == texts(ranks@),
            rk == pieces(field@, '/'),
            rk.len() == 8,
            rows_of(rk.take(i as int)) == Ok::<Seq<Seq<Option<(Piece, Color)>>>, FenErrorView>(
                rows_view(rows@),
            ),
            forall|j: int| 0 <= j < rows@.len() ==> (#[trigger] rows@[j])@.len() == 8,
            rows@.len() == i,
        decreases 8 - i,
    {
        assert(rk.take(i + 1).drop_last() == rk.take(i as int));
        assert(rk.take(i + 1).last() == ranks@[i as int]@);
        match parse_rank(&ranks[i]) {
            Err(e) => {
                assert(rows_of(rk) == Err::<Seq<Seq<Option<(Piece, Color)>>>, FenErrorView>(e@))
                    by {
                    lemma_rows_of_stops(rk, i as int + 1);
                }
                return Err(e);
            },
            Ok(row) => {
                let ghost before = rows@;
                rows.push(row);
                assert(rows_view(rows@) =~= rows_view(before).push(row@));
            },
        }
        i += 1;
    }
    assert(rk.take(8) == rk);
    let mut squares: [Option<(Piece, Color)>; 64] = [None; 64];
    let mut k: usize = 0;
    while k < 64
        invariant
            k <= 64,
            rows@.len() == 8,
            forall|j: int| 0 <= j < 8 ==> (#[trigger] rows@[j])@.len() == 8,
            forall|j: int| 0 <= j < k ==> squares@[j] == rows_view(rows@)[7 - j / 8][j % 8],
        decreases 64 - k,
    {
        let cell = rows[7 - k / 8][k % 8];
        squares[k] = cell;
        k += 1;
    }
    assert(squares@ =~= squares_of_rows(rows_view(rows@)));
    Ok(squares)
}

/// Once a prefix of the ranks fails to read, reading all of them fails the same way.
proof fn lemma_rows_of_stops(ranks: Seq<Seq<char>>, n: int)
    requires
        0 <= n <= ranks.len(),
        rows_of(ranks.take(n)) is Err,
    ensures
        rows_of(ranks) == rows_of(ranks.take(n)),
    decreases ranks.len() - n,
{
    if n < ranks.len() {
        assert(ranks.take(n + 1).drop_last() == ranks.take(n));
        lemma_rows_of_stops(ranks, n + 1);
    } else {
        assert(ranks.take(n) == ranks);
    }
}


#[derive(Debug, Clone, Copy, PartialEq, Eq)]
pub struct CastlingRights {
    pub white_kingside: bool,
    pub white_queenside: bool,
    pub black_kingside: bool,
    pub black_queenside: bool,
}

/// No castling rights at all.
pub open spec fn no_castling() -> CastlingRights {
    CastlingRights {
        white_kingside: false,
        white_queenside: false,
        black_kingside: false,
        black_queenside: false,
    }
}

impl Default for CastlingRights {
    fn default() -> (r: CastlingRights)
        ensures
            r == no_castling(),
    {
        CastlingRights {
            white_kingside: false,
            white_queenside: false,
            black_kingside: false,
            black_queenside: false,
        }
    }
}

/// Reads the rest `rest` of the castling field `field` on top of the rights
/// `r` already read: each of `K`, `Q`, `k`, `q` may appear once, in any order.
pub open spec fn castling_from(rest: Seq<char>, r: CastlingRights, field: Seq<char>) -> Result<
    CastlingRights,
    FenErrorView,
>
    decreases rest.len(),
{
    if rest.len() == 0 {
        Ok(r)
    } else {
        let c = rest[0];
        if c == 'K' && !r.white_kingside {
            castling_from(rest.drop_first(), CastlingRights { white_kingside: true, ..r }, field)
        } else if c == 'Q' && !r.white_queenside {
            castling_from(rest.drop_first(), CastlingRights { white_queenside: true, ..r }, field)
        } else if c == 'k' && !r.black_kingside {
            castling_from(rest.drop_first(), CastlingRights { black_kingside: true, ..r }, field)
        } else if c == 'q' && !r.black_queenside {
            castling_from(rest.drop_first(), CastlingRights { black_queenside: true, ..r }, field)
        } else {
            Err(FenErrorView::BadCastling(field))
        }
    }
}

/// The castling rights a castling field gives: `-` for none.
pub open spec fn castling_of(field: Seq<char>) -> Result<CastlingRights, FenErrorView> {
    if field == seq!['-'] {
        Ok(no_castling())
    } else {
        castling_from(field, no_castling(), field)
    }
}

/// Parses a FEN castling field: `-`, or the letters `K`, `Q`, `k`, `q`.
pub fn parse_castling(field: &str) -> (r: Result<CastlingRights, FenError>)
    ensures
        match r {
            Ok(c) => castling_of(field@) == Ok::<CastlingRights, FenErrorView>(c),
            Err(e) => castling_of(field@) == Err::<CastlingRights, FenErrorView>(e@),
        },
{
    let chars = chars_of(field);
    parse_castling_chars(&chars)
}

fn parse_castling_chars(field: &Vec<char>) -> (r: Result<CastlingRights, FenError>)
    ensures
        match r {
            Ok(c) => castling_of(field@) == Ok::<CastlingRights, FenErrorView>(c),
            Err(e) => castling_of(field@) == Err::<CastlingRights, FenErrorView>(e@),
        },
{
    let n = field.len();
    if n == 1 && field[0] == '-' {
        assert(field@ =~= seq!['-']);
        return Ok(CastlingRights::default());
    }
    assert(field@ != seq!['-']) by {
        if field@ == seq!['-'] {
            assert(field@[0] == '-');
        }
    }
    let mut rights = CastlingRights::default();
    let ghost whole = field@;
    assert(whole.skip(0) == whole);
    let mut i: usize = 0;
    while i < n
        invariant
            n == whole.len(),
            whole == field@,
            whole != seq!['-'],
            i <= n,
            castling_from(whole.skip(i as int), rights, whole) == castling_from(
                whole,
                no_castling(),
                whole,
            ),
        decreases n - i,
    {
        let c = field[i];
        assert(whole.skip(i as int)[0] == c);
        assert(whole.skip(i as int).drop_first() == whole.skip(i + 1));
        if c == 'K' && !rights.white_kingside {
            rights.white_kingside = true;
        } else if c == 'Q' && !rights.white_queenside {
            rights.white_queenside = true;
        } else if c == 'k' && !rights.black_kingside {
            rights.black_kingside = true;
        } else if c == 'q' && !rights.black_queenside {
            rights.black_queenside = true;
        } else {
            let text = string_of(field, 0, n);
            assert(whole.subrange(0, n as int) == whole);
            return Err(FenError::BadCastling(text));
        }
        i += 1;
    }
    assert(whole.skip(n as int) == Seq::<char>::empty());
    Ok(rights)
}


/// A full board position as described by a FEN string.
#[derive(Debug, Clone, PartialEq, Eq)]
pub struct Board {
    /// Indexed `rank * 8 + file`, both zero-based (rank 0 = rank 1, file 0 = 'a').
    pub squares: [Option<(Piece, Color)>; 64],
    pub side_to_move: Color,
    pub castling: CastlingRights,
    pub en_passant: Option<Square>,
    pub halfmove_clock: u32,
    pub fullmove_number: u32,
}

/// A position: the piece on each square, indexed `rank * 8 + file`, and the
/// five other fields of a FEN record.
pub struct BoardView {
    pub squares: Seq<Option<(Piece, Color)>>,
    pub side_to_move: Color,
    pub castling: CastlingRights,
    pub en_passant: Option<Square>,
    pub halfmove_clock: u32,
    pub fullmove_number: u32,
}

impl BoardView {
    /// A position as the parser produces it: 64 squares, an on-board en
    /// passant square if any, and a fullmove number of at least 1.
    pub open spec fn well_formed(self) -> bool {
        &&& self.squares.len() == 64
        &&& (self.en_passant matches Some(sq) ==> sq.on_board())
        &&& self.fullmove_number >= 1
    }
}

impl View for Board {
    type V = BoardView;

    open spec fn view(&self) -> BoardView {
        BoardView {
            squares: self.squares@,
            side_to_move: self.side_to_move,
            castling: self.castling,
            en_passant: self.en_passant,
            halfmove_clock: self.halfmove_clock,
            fullmove_number: self.fullmove_number,
        }
    }
}

impl Board {
    pub fn side_to_move(&self) -> (c: Color)
        ensures
            c == self@.side_to_move,
    {
        self.side_to_move
    }

    pub fn castling(&self) -> (c: CastlingRights)
        ensures
            c == self@.castling,
    {
        self.castling
    }

    pub fn en_passant(&self) -> (sq: Option<Square>)
        ensures
            sq == self@.en_passant,
    {
        self.en_passant
    }

    pub fn halfmove_clock(&self) -> (n: u32)
        ensures
            n == self@.halfmove_clock,
    {
        self.halfmove_clock
    }

    pub fn fullmove_number(&self) -> (n: u32)
        ensures
            n == self@.fullmove_number,
    {
        self.fullmove_number
    }

    pub fn piece_at(&self, square: Square) -> (r: Option<(Piece, Color)>)
        requires
            square.file < 8,
            square.rank < 8,
        ensures
            r == self@.squares[square.rank * 8 + square.file],
    {
        self.squares[square.rank as usize * 8 + square.file as usize]
    }
}

/// A parse result with its board and error taken by their views.
pub open spec fn fen_outcome(r: Result<Board, FenError>) -> Result<BoardView, FenErrorView> {
    match r {
        Ok(b) => Ok(b@),
        Err(e) => Err(e@),
    }
}

/// What `parse_fen` gives for the text `s`: six fields separated by white
/// space, each read in turn; the first field that cannot be read is the error.
pub open spec fn fen_result(s: Seq<char>) -> Result<BoardView, FenErrorView> {
    let fields = words(s);
    if fields.len() != 6 {
        Err(FenErrorView::WrongFieldCount(fields.len()))
    } else {
        match placement_of(fields[0]) {
            Err(e) => Err(e),
            Ok(squares) => if fields[1].len() != 1 || Color::from_letter(fields[1][0]) is None {
                Err(FenErrorView::BadSideToMove(fields[1]))
            } else {
                match castling_of(fields[2]) {
                    Err(e) => Err(e),
                    Ok(castling) => if fields[3] != seq!['-'] && square_of_coord(fields[3]) is None {
                        Err(FenErrorView::BadEnPassant(fields[3]))
                    } else if u32_of_text(fields[4]) is None {
                        Err(FenErrorView::BadHalfmoveClock(fields[4]))
                    } else if u32_of_text(fields[5]) is None || u32_of_text(fields[5]) == Some(
                        0u32,
                    ) {
                        Err(FenErrorView::BadFullmoveNumber(fields[5]))
                    } else {
                        Ok(
                            BoardView {
                                squares,
                                side_to_move: Color::from_letter(fields[1][0])->0,
                                castling,
                                en_passant: if fields[3] == seq!['-'] {
                                    None
                                } else {
                                    square_of_coord(fields[3])
                                },
                                halfmove_clock: u32_of_text(fields[4])->0,
                                fullmove_number: u32_of_text(fields[5])->0,
                            },
                        )
                    },
                }
            },
        }
    }
}

/// The whole of `v` as a `String`.
fn string_of_all(v: &Vec<char>) -> (s: String)
    ensures
        s@ == v@,
{
    let s = string_of(v, 0, v.len());
    assert(v@.subrange(0, v@.len() as int) == v@);
    s
}

/// Parses a full FEN string (all six fields) into a `Board`.
pub fn parse_fen(input: &str) -> (r: Result<Board, FenError>)
    ensures
        fen_outcome(r) == fen_result(input@),
        r matches Ok(b) ==> b@.well_formed(),
{
    let chars = chars_of(input);
    let fields = split_whitespace(&chars);
    let ghost fs = texts(fields@);
    if fields.len() != 6 {
        return Err(FenError::WrongFieldCount(fields.len()));
    }
    assert(fs[0] == fields@[0]@ && fs[1] == fields@[1]@ && fs[2] == fields@[2]@);
    assert(fs[3] == fields@[3]@ && fs[4] == fields@[4]@ && fs[5] == fields@[5]@);
    let squares = match parse_piece_placement(&fields[0]) {
        Err(e) => {
            return Err(e);
        },
        Ok(sq) => sq,
    };
    let side_field = &fields[1];
    if side_field.len() != 1 {
        return Err(FenError::BadSideToMove(string_of_all(side_field)));
    }
    let side_to_move = match Color::from_char(side_field[0]) {
        None => {
            return Err(FenError::BadSideToMove(string_of_all(side_field)));
        },
        Some(c) => c,
    };
    let castling = match parse_castling_chars(&fields[2]) {
        Err(e) => {
            return Err(e);
        },
        Ok(c) => c,
    };
    let ep_field = &fields[3];
    let is_dash = ep_field.len() == 1 && ep_field[0] == '-';
    assert(is_dash == (fs[3] == seq!['-'])) by {
        if is_dash {
            assert(fs[3] =~= seq!['-']);
        }
        if fs[3] == seq!['-'] {
            assert(fs[3][0] == '-');
        }
    }
    let en_passant = if is_dash {
        None
    } else {
        assert(ep_field@.subrange(0, ep_field@.len() as int) == ep_field@);
        match coord_in(ep_field, 0, ep_field.len()) {
            None => {
                return Err(FenError::BadEnPassant(string_of_all(ep_field)));
            },
            Some(sq) => Some(sq),
        }
    };
    let halfmove_clock = match parse_u32(&fields[4]) {
        None => {
            return Err(FenError::BadHalfmoveClock(string_of_all(&fields[4])));
        },
        Some(n) => n,
    };
    let fullmove_number = match parse_u32(&fields[5]) {
        None => {
            return Err(FenError::BadFullmoveNumber(string_of_all(&fields[5])));
        },
        Some(n) => n,
    };
    if fullmove_number == 0 {
        return Err(FenError::BadFullmoveNumber(string_of_all(&fields[5])));
    }
    proof {
        lemma_placement_squares(fs[0]);
    }
    Ok(Board { squares, side_to_move, castling, en_passant, halfmove_clock, fullmove_number })
}

/// Every position that the parser returns is well formed.
pub proof fn lemma_parsed_board_well_formed(s: Seq<char>)
    ensures
        fen_result(s) matches Ok(b) ==> b.well_formed(),
{
    let fields = words(s);
    if fields.len() == 6 {
        lemma_placement_squares(fields[0]);
    }
}

/// A placement that reads gives 64 squares.
proof fn lemma_placement_squares(field: Seq<char>)
    ensures
        placement_of(field) matches Ok(sq) ==> sq.len() == 64,
{
}


/// The count of a run of empty squares: nothing for an empty run.
pub open spec fn run_text(run: nat) -> Seq<char> {
    if run > 0 {
        decimal_text(run)
    } else {
        seq![]
    }
}

/// The text of the squares `cells` of a rank, after a run of `run` empty
/// squares not yet written: each run of empty squares is written as its
/// length, each piece as its letter.
pub open spec fn row_text_from(cells: Seq<Option<(Piece, Color)>>, run: nat) -> Seq<char>
    decreases cells.len(),
{
    if cells.len() == 0 {
        run_text(run)
    } else {
        match cells[0] {
            None => row_text_from(cells.drop_first(), run + 1),
            Some((p, c)) => run_text(run) + seq![fen_char_of(p, c)] + row_text_from(
                cells.drop_first(),
                0,
            ),
        }
    }
}

/// The squares of rank `rank` (0 for rank 1), from file a to file h.
pub open spec fn rank_row(squares: Seq<Option<(Piece, Color)>>, rank: int) -> Seq<
    Option<(Piece, Color)>,
> {
    squares.subrange(rank * 8, rank * 8 + 8)
}

/// The text of the lowest `n` ranks, from rank `n` down to rank 1, separated by `/`.
pub open spec fn ranks_text(squares: Seq<Option<(Piece, Color)>>, n: int) -> Seq<char>
    decreases n,
{
    if n <= 1 {
        row_text_from(rank_row(squares, 0), 0)
    } else {
        row_text_from(rank_row(squares, n - 1), 0) + seq!['/'] + ranks_text(squares, n - 1)
    }
}

/// The placement field of a position.
pub open spec fn placement_text(squares: Seq<Option<(Piece, Color)>>) -> Seq<char> {
    ranks_text(squares, 8)
}

/// The castling field: `-` for no rights, else the letters `KQkq` of the
/// rights held, in that order.
pub open spec fn castling_text(c: CastlingRights) -> Seq<char> {
    if c == no_castling() {
        seq!['-']
    } else {
        (if c.white_kingside {
            seq!['K']
        } else {
            seq![]
        }) + (if c.white_queenside {
            seq!['Q']
        } else {
            seq![]
        }) + (if c.black_kingside {
            seq!['k']
        } else {
            seq![]
        }) + (if c.black_queenside {
            seq!['q']
        } else {
            seq![]
        })
    }
}

/// The en passant field: `-` or the square.
pub open spec fn en_passant_text(ep: Option<Square>) -> Seq<char> {
    match ep {
        None => seq!['-'],
        Some(sq) => sq.text(),
    }
}

/// What `Display` writes for a position: the six fields separated by single spaces.
pub open spec fn board_text(b: BoardView) -> Seq<char> {
    placement_text(b.squares) + seq![' '] + seq![b.side_to_move.letter()] + seq![' ']
        + castling_text(b.castling) + seq![' '] + en_passant_text(b.en_passant) + seq![' ']
        + decimal_text(b.halfmove_clock as nat) + seq![' '] + decimal_text(
        b.fullmove_number as nat,
    )
}

impl CastlingRights {
    /// Appends the castling field.
    pub fn write_to(&self, s: &mut String)
        ensures
            final(s)@ == old(s)@ + castling_text(*self),
    {
        let ghost s0 = s@;
        if !self.white_kingside && !self.white_queenside && !self.black_kingside
            && !self.black_queenside {
            append_char(s, '-');
            return ;
        }
        if self.white_kingside {
            push_char(s, 'K');
        }
        if self.white_queenside {
            push_char(s, 'Q');
        }
        if self.black_kingside {
            push_char(s, 'k');
        }
        if self.black_queenside {
            push_char(s, 'q');
        }
        assert(s@ =~= s0 + castling_text(*self));
    }

    /// Formats the castling field, as `Display` does.
    pub fn to_string(&self) -> (s: String)
        ensures
            s@ == castling_text(*self),
    {
        let mut s = String::new();
        self.write_to(&mut s);
        assert(s@ =~= castling_text(*self));
        s
    }
}

impl Board {
    /// Appends the text of rank `rank` (0 for rank 1).
    fn write_rank(&self, rank: usize, s: &mut String)
        requires
            rank < 8,
        ensures
            final(s)@ == old(s)@ + row_text_from(rank_row(self@.squares, rank as int), 0),
    {
        let ghost s0 = s@;
        let ghost cells = rank_row(self@.squares, rank as int);
        let base = rank * 8;
        let mut file: usize = 0;
        let mut run: u64 = 0;
        assert(cells.skip(0) == cells);
        while file < 8
            invariant
                file <= 8,
                run <= file,
                base == rank * 8,
                rank < 8,
                cells == rank_row(self@.squares, rank as int),
                cells.len() == 8,
                s0 + row_text_from(cells, 0) == s@ + row_text_from(cells.skip(file as int), run as nat),
            decreases 8 - file,
        {
            let cell = self.squares[base + file];
            assert(cells.skip(file as int)[0] == cell);
            assert(cells.skip(file as int).drop_first() == cells.skip(file + 1));
            match cell {
                None => {
                    run = run + 1;
                },
                Some((p, c)) => {
                    let ghost before = s@;
                    if run > 0 {
                        push_decimal(s, run);
                    }
                    assert(s@ =~= before + run_text(run as nat));
                    append_char(s, piece_to_fen_char(p, c));
                    assert(before + (run_text(run as nat) + seq![fen_char_of(p, c)]
                        + row_text_from(cells.skip(file + 1), 0)) =~= s@ + row_text_from(
                        cells.skip(file + 1),
                        0,
                    ));
                    run = 0;
                },
            }
            file += 1;
        }
        assert(cells.skip(8) == Seq::<Option<(Piece, Color)>>::empty());
        let ghost before = s@;
        if run > 0 {
            push_decimal(s, run);
        }
        assert(s@ =~= before + run_text(run as nat));
    }

    /// Appends the placement field.
    fn write_placement(&self, s: &mut String)
        ensures
            final(s)@ == old(s)@ + placement_text(self@.squares),
    {
        let ghost s0 = s@;
        let ghost sq = self@.squares;
        let mut n: usize = 8;
        while n > 1
            invariant
                1 <= n <= 8,
                sq == self@.squares,
                s0 + placement_text(sq) == s@ + ranks_text(sq, n as int),
            decreases n,
        {
            let ghost before = s@;
            self.write_rank(n - 1, s);
            append_char(s, '/');
            assert(before + ranks_text(sq, n as int) =~= s@ + ranks_text(sq, n - 1));
            n -= 1;
        }
        self.write_rank(0, s);
    }

    /// Formats the position in FEN, as `Display` does.
    pub fn to_string(&self) -> (s: String)
        requires
            self@.en_passant matches Some(sq) ==> sq.printable(),
        ensures
            s@ == board_text(self@),
    {
        let mut s = String::new();
        self.write_placement(&mut s);
        assert(s@ =~= placement_text(self@.squares));
        append_char(&mut s, ' ');
        append_char(&mut s, self.side_to_move.to_char());
        append_char(&mut s, ' ');
        self.castling.write_to(&mut s);
        append_char(&mut s, ' ');
        match self.en_passant {
            None => append_char(&mut s, '-'),
            Some(sq) => sq.write_to(&mut s),
        }
        append_char(&mut s, ' ');
        push_decimal(&mut s, self.halfmove_clock as u64);
        append_char(&mut s, ' ');
        push_decimal(&mut s, self.fullmove_number as u64);
        s
    }
}


/// What `Display` writes for a FEN error.
pub open spec fn fen_error_text(e: FenErrorView) -> Seq<char> {
    match e {
        FenErrorView::WrongFieldCount(n) => "expected 6 space-separated fields, found "@
            + decimal_text(n),
        FenErrorView::WrongRankCount(n) => "expected 8 ranks, found "@ + decimal_text(n),
        FenErrorView::RankTooLong(t) => "rank has more than 8 files: "@ + quoted(t),
        FenErrorView::RankTooShort(t) => "rank has fewer than 8 files: "@ + quoted(t),
        FenErrorView::InvalidPieceChar(c) => "invalid piece character "@ + quoted(seq![c]),
        FenErrorView::BadSideToMove(t) => "invalid side to move: "@ + quoted(t),
        FenErrorView::BadCastling(t) => "invalid castling rights: "@ + quoted(t),
        FenErrorView::BadEnPassant(t) => "invalid en passant square: "@ + quoted(t),
        FenErrorView::BadHalfmoveClock(t) => "invalid halfmove clock: "@ + quoted(t),
        FenErrorView::BadFullmoveNumber(t) => "invalid fullmove number: "@ + quoted(t),
    }
}

impl FenError {
    /// Formats the error message, as `Display` does.
    pub fn to_string(&self) -> (s: String)
        ensures
            s@ == fen_error_text(self@),
    {
        let mut s = String::new();
        match self {
            FenError::WrongFieldCount(n) => {
                s.append("expected 6 space-separated fields, found ");
                push_decimal(&mut s, *n as u64);
            },
            FenError::WrongRankCount(n) => {
                s.append("expected 8 ranks, found ");
                push_decimal(&mut s, *n as u64);
            },
            FenError::RankTooLong(t) => {
                s.append("rank has more than 8 files: ");
                append_quoted(&mut s, t);
            },
            FenError::RankTooShort(t) => {
                s.append("rank has fewer than 8 files: ");
                append_quoted(&mut s, t);
            },
            FenError::InvalidPieceChar(c) => {
                s.append("invalid piece character ");
                append_quoted_char(&mut s, *c);
            },
            FenError::BadSideToMove(t) => {
                s.append("invalid side to move: ");
                append_quoted(&mut s, t);
            },
            FenError::BadCastling(t) => {
                s.append("invalid castling rights: ");
                append_quoted(&mut s, t);
            },
            FenError::BadEnPassant(t) => {
                s.append("invalid en passant square: ");
                append_quoted(&mut s, t);
            },
            FenError::BadHalfmoveClock(t) => {
                s.append("invalid halfmove clock: ");
                append_quoted(&mut s, t);
            },
            FenError::BadFullmoveNumber(t) => {
                s.append("invalid fullmove number: ");
                append_quoted(&mut s, t);
            },
        }
        assert(s@ =~= fen_error_text(self@));
        s
    }
}

} // verus!
