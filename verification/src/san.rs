//! Standard algebraic notation (SAN): the shape of a single move's text.
//!
//! A move is `<piece><disambiguation><capture><destination><promotion><check>`
//! or a castle (`O-O`, `O-O-O`, also written with zeros), optionally followed
//! by `+` or `#`. Nothing here knows about a board position.

use vstd::prelude::*;

use crate::text::{
    chars_of, decimal_text, digit_char, is_ascii_uppercase, is_upper, push_char, push_decimal,
    string_of,
};

verus! {

#[derive(Debug, Clone, Copy, PartialEq, Eq, Structural)]
pub enum Piece {
    Pawn,
    Knight,
    Bishop,
    Rook,
    Queen,
    King,
}

impl Piece {
    /// The piece a capital letter names in SAN; pawns have no letter.
    pub open spec fn from_letter(c: char) -> Option<Piece> {
        match c {
            'N' => Some(Piece::Knight),
            'B' => Some(Piece::Bishop),
            'R' => Some(Piece::Rook),
            'Q' => Some(Piece::Queen),
            'K' => Some(Piece::King),
            _ => None,
        }
    }

    /// The capital letter of a piece (`P` for a pawn).
    pub open spec fn letter(self) -> char {
        match self {
            Piece::Pawn => 'P',
            Piece::Knight => 'N',
            Piece::Bishop => 'B',
            Piece::Rook => 'R',
            Piece::Queen => 'Q',
            Piece::King => 'K',
        }
    }

    pub fn from_char(c: char) -> (r: Option<Piece>)
        ensures
            r == Piece::from_letter(c),
    {
        match c {
            'N' => Some(Piece::Knight),
            'B' => Some(Piece::Bishop),
            'R' => Some(Piece::Rook),
            'Q' => Some(Piece::Queen),
            'K' => Some(Piece::King),
            _ => None,
        }
    }

    pub fn to_char(self) -> (c: char)
        ensures
            c == self.letter(),
    {
        match self {
            Piece::Pawn => 'P',
            Piece::Knight => 'N',
            Piece::Bishop => 'B',
            Piece::Rook => 'R',
            Piece::Queen => 'Q',
            Piece::King => 'K',
        }
    }
}

/// A board square, stored as zero-based file (a=0..h=7) and rank (1=0..8=7).
#[derive(Debug, Clone, Copy, PartialEq, Eq, Structural)]
pub struct Square {
    pub file: u8,
    pub rank: u8,
}

pub open spec fn is_file_char(c: char) -> bool {
    'a' <= c && c <= 'h'
}

pub open spec fn is_rank_char(c: char) -> bool {
    '1' <= c && c <= '8'
}

/// The zero-based file of a file letter.
pub open spec fn file_of(c: char) -> u8 {
    (c as int - 'a' as int) as u8
}

/// The zero-based rank of a rank digit.
pub open spec fn rank_of(c: char) -> u8 {
    (c as int - '1' as int) as u8
}

/// The letter printed for a zero-based file (`b'a' + file`).
pub open spec fn file_letter(file: u8) -> char {
    (file + 97) as char
}

/// The square a coordinate like `e4` names: exactly two characters, a file
/// letter `a`-`h` then a rank digit `1`-`8`.
pub open spec fn square_of_coord(s: Seq<char>) -> Option<Square> {
    if s.len() == 2 && is_file_char(s[0]) && is_rank_char(s[1]) {
        Some(Square { file: file_of(s[0]), rank: rank_of(s[1]) })
    } else {
        None
    }
}

impl Square {
    pub open spec fn on_board(self) -> bool {
        self.file < 8 && self.rank < 8
    }

    /// What `Display` writes: the file letter, then the one-based rank number.
    pub open spec fn text(self) -> Seq<char> {
        seq![file_letter(self.file)] + decimal_text((self.rank + 1) as nat)
    }

    /// Whether the text can be written: the file letter and the rank number
    /// are computed in `u8`.
    pub open spec fn printable(self) -> bool {
        self.file <= 158 && self.rank <= 254
    }

    pub fn new(file: u8, rank: u8) -> (r: Option<Square>)
        ensures
            r == (if file < 8 && rank < 8 {
                Some(Square { file, rank })
            } else {
                None
            }),
    {
        if file < 8 && rank < 8 {
            Some(Square { file, rank })
        } else {
            None
        }
    }

    /// Parses a two-character coordinate like "e4". Anything else, including
    /// off-board files/ranks or extra characters, returns `None`.
    pub fn from_coord(s: &str) -> (r: Option<Square>)
        ensures
            r == square_of_coord(s@),
    {
        let chars = chars_of(s);
        let n = chars.len();
        coord_in(&chars, 0, n)
    }

    pub fn to_string(&self) -> (s: String)
        requires
            self.printable(),
        ensures
            s@ == self.text(),
    {
        let mut s = String::new();
        self.write_to(&mut s);
        s
    }

    pub fn write_to(&self, s: &mut String)
        requires
            self.printable(),
        ensures
            final(s)@ == old(s)@ + self.text(),
    {
        push_char(s, (97u8 + self.file) as char);
        push_decimal(s, (self.rank + 1) as u64);
        assert(final(s)@ == old(s)@ + self.text());
    }
}

/// The square named by `v[from..to]`.
pub fn coord_in(v: &Vec<char>, from: usize, to: usize) -> (r: Option<Square>)
    requires
        from <= to <= v@.len(),
    ensures
        r == square_of_coord(v@.subrange(from as int, to as int)),
{
    let ghost s = v@.subrange(from as int, to as int);
    if to - from != 2 {
        return None;
    }
    let f = v[from];
    let r = v[from + 1];
    assert(s[0] == f && s[1] == r);
    if 'a' <= f && f <= 'h' && '1' <= r && r <= '8' {
        Some(Square { file: ((f as u32) - ('a' as u32)) as u8, rank: ((r as u32) - ('1' as u32)) as u8 })
    } else {
        None
    }
}


#[derive(Debug, Clone, Copy, PartialEq, Eq, Structural)]
pub enum CastleSide {
    Kingside,
    Queenside,
}

/// A parsed SAN move. Castling moves leave `to` as `None` since the
/// destination depends on which side is moving, which SAN text alone
/// doesn't say.
#[derive(Debug, Clone, PartialEq, Eq)]
pub struct SanMove {
    pub piece: Piece,
    pub from_file: Option<u8>,
    pub from_rank: Option<u8>,
    pub capture: bool,
    pub to: Option<Square>,
    pub promotion: Option<Piece>,
    pub check: bool,
    pub checkmate: bool,
    pub castle: Option<CastleSide>,
}

#[derive(Debug, Clone, PartialEq, Eq)]
pub enum ParseError {
    Empty,
    UnknownPiece(char),
    BadSquare(String),
    BadPromotion(char),
    TrailingGarbage(String),
    TooShort,
}

/// A `ParseError` with its text fields taken as character sequences.
pub enum ParseErrorView {
    Empty,
    UnknownPiece(char),
    BadSquare(Seq<char>),
    BadPromotion(char),
    TrailingGarbage(Seq<char>),
    TooShort,
}

impl View for ParseError {
    type V = ParseErrorView;

    open spec fn view(&self) -> ParseErrorView {
        match self {
            ParseError::Empty => ParseErrorView::Empty,
            ParseError::UnknownPiece(c) => ParseErrorView::UnknownPiece(*c),
            ParseError::BadSquare(s) => ParseErrorView::BadSquare(s@),
            ParseError::BadPromotion(c) => ParseErrorView::BadPromotion(*c),
            ParseError::TrailingGarbage(s) => ParseErrorView::TrailingGarbage(s@),
            ParseError::TooShort => ParseErrorView::TooShort,
        }
    }
}

/// A parse result with its error taken by its view.
pub open spec fn san_outcome(r: Result<SanMove, ParseError>) -> Result<SanMove, ParseErrorView> {
    match r {
        Ok(m) => Ok(m),
        Err(e) => Err(e@),
    }
}

/// The move text with a trailing `#` or `+` taken off, and which one it was.
pub open spec fn strip_check(s: Seq<char>) -> (Seq<char>, bool, bool) {
    if s.len() > 0 && s.last() == '#' {
        (s.drop_last(), false, true)
    } else if s.len() > 0 && s.last() == '+' {
        (s.drop_last(), true, false)
    } else {
        (s, false, false)
    }
}

pub open spec fn is_kingside_text(b: Seq<char>) -> bool {
    b == seq!['O', '-', 'O'] || b == seq!['0', '-', '0']
}

pub open spec fn is_queenside_text(b: Seq<char>) -> bool {
    b == seq!['O', '-', 'O', '-', 'O'] || b == seq!['0', '-', '0', '-', '0']
}

pub open spec fn castle_move(side: CastleSide, check: bool, checkmate: bool) -> SanMove {
    SanMove {
        piece: Piece::King,
        from_file: None,
        from_rank: None,
        capture: false,
        to: None,
        promotion: None,
        check,
        checkmate,
        castle: Some(side),
    }
}

/// The parts of the text between the piece letter and the destination: at
/// most one file letter, then at most one rank digit, then at most one `x`,
/// in that order and nothing else. Gives the source file, the source rank and
/// whether the move captures.
pub open spec fn middle_parts(m: Seq<char>) -> Option<(Option<u8>, Option<u8>, bool)> {
    let i1: int = if m.len() > 0 && is_file_char(m[0]) {
        1
    } else {
        0
    };
    let i2: int = if m.len() > i1 && is_rank_char(m[i1]) {
        i1 + 1
    } else {
        i1
    };
    let i3: int = if m.len() > i2 && m[i2] == 'x' {
        i2 + 1
    } else {
        i2
    };
    if i3 == m.len() {
        Some(
            (
                if i1 == 1 {
                    Some(file_of(m[0]))
                } else {
                    None
                },
                if i2 > i1 {
                    Some(rank_of(m[i1]))
                } else {
                    None
                },
                i3 > i2,
            ),
        )
    } else {
        None
    }
}

/// The marks of a middle text other than the capture marker `x`, in order.
pub open spec fn without_captures(m: Seq<char>) -> Seq<char>
    decreases m.len(),
{
    if m.len() == 0 {
        seq![]
    } else if m.last() == 'x' {
        without_captures(m.drop_last())
    } else {
        without_captures(m.drop_last()).push(m.last())
    }
}

/// A mark that names a source file or a source rank.
pub open spec fn is_source_mark(c: char) -> bool {
    is_file_char(c) || is_rank_char(c)
}

/// The text that a refused middle is reported with: its marks other than `x`
/// when there are more than two of them, else the first of them that names
/// neither a file nor a rank, else the whole middle.
pub open spec fn garbage_of(middle: Seq<char>) -> Seq<char> {
    let d = without_captures(middle);
    if d.len() > 2 {
        d
    } else if d.len() > 0 && !is_source_mark(d[0]) {
        seq![d[0]]
    } else if d.len() > 1 && !is_source_mark(d[1]) {
        seq![d[1]]
    } else {
        middle
    }
}

/// The move that a non-castling body (the text without its check suffix)
/// denotes: an optional capital piece letter (none for a pawn), at most one
/// source file letter, at most one source rank digit, an optional capture
/// marker `x`, the destination square, and an optional promotion `=X` to a
/// knight, bishop, rook or queen. A pawn capture needs its source file.
#[verifier::opaque]
pub open spec fn move_of_body(body: Seq<char>, check: bool, checkmate: bool) -> Result<
    SanMove,
    ParseErrorView,
> {
    let n = body.len() as int;
    if n == 0 {
        Err(ParseErrorView::TooShort)
    } else if is_upper(body[0]) && Piece::from_letter(body[0]) is None {
        Err(ParseErrorView::UnknownPiece(body[0]))
    } else {
        let piece = if is_upper(body[0]) {
            Piece::from_letter(body[0])->0
        } else {
            Piece::Pawn
        };
        let start: int = if is_upper(body[0]) {
            1
        } else {
            0
        };
        let promoted = n >= 2 && body[n - 2] == '=';
        let promotion = Piece::from_letter(body[n - 1]);
        if promoted && (promotion is None || promotion == Some(Piece::King)) {
            Err(ParseErrorView::BadPromotion(body[n - 1]))
        } else {
            let end: int = if promoted {
                n - 2
            } else {
                n
            };
            if end < start + 2 {
                Err(ParseErrorView::TooShort)
            } else {
                let dest = body.subrange(end - 2, end);
                match square_of_coord(dest) {
                    None => Err(ParseErrorView::BadSquare(dest)),
                    Some(to) => {
                        let middle = body.subrange(start, end - 2);
                        match middle_parts(middle) {
                            None => Err(ParseErrorView::TrailingGarbage(garbage_of(middle))),
                            Some((from_file, from_rank, capture)) => if piece == Piece::Pawn
                                && capture && from_file is None {
                                Err(ParseErrorView::TrailingGarbage(garbage_of(middle)))
                            } else {
                                Ok(
                                    SanMove {
                                        piece,
                                        from_file,
                                        from_rank,
                                        capture,
                                        to: Some(to),
                                        promotion: if promoted {
                                            promotion
                                        } else {
                                            None
                                        },
                                        check,
                                        checkmate,
                                        castle: None,
                                    },
                                )
                            },
                        }
                    },
                }
            }
        }
    }
}

/// What `parse_san` gives for the move text `s`.
pub open spec fn san_result(s: Seq<char>) -> Result<SanMove, ParseErrorView> {
    if s.len() == 0 {
        Err(ParseErrorView::Empty)
    } else {
        let (body, check, checkmate) = strip_check(s);
        if is_kingside_text(body) {
            Ok(castle_move(CastleSide::Kingside, check, checkmate))
        } else if is_queenside_text(body) {
            Ok(castle_move(CastleSide::Queenside, check, checkmate))
        } else {
            move_of_body(body, check, checkmate)
        }
    }
}

/// Parses a single SAN move (no move numbers, no annotations like "!?").
pub fn parse_san(input: &str) -> (r: Result<SanMove, ParseError>)
    ensures
        san_outcome(r) == san_result(input@),
        r matches Ok(m) ==> m.well_formed(),
{
    proof {
        lemma_parsed_move_well_formed(input@);
    }
    let chars = chars_of(input);
    let n = chars.len();
    if n == 0 {
        return Err(ParseError::Empty);
    }
    let last = chars[n - 1];
    let (len, check, checkmate) = if last == '#' {
        (n - 1, false, true)
    } else if last == '+' {
        (n - 1, true, false)
    } else {
        (n, false, false)
    };
    let ghost body = chars@.take(len as int);
    assert(strip_check(chars@) == (body, check, checkmate)) by {
        if len < n {
            assert(chars@.drop_last() =~= body);
        } else {
            assert(chars@ =~= body);
        }
    }
    let kingside = len == 3 && ((chars[0] == 'O' && chars[1] == '-' && chars[2] == 'O') || (
    chars[0] == '0' && chars[1] == '-' && chars[2] == '0'));
    assert(kingside == is_kingside_text(body)) by {
        if is_kingside_text(body) {
            assert(body.len() == 3);
            assert(body[0] == chars[0] && body[1] == chars[1] && body[2] == chars[2]);
        }
        if len == 3 {
            if chars[0] == 'O' && chars[1] == '-' && chars[2] == 'O' {
                assert(body =~= seq!['O', '-', 'O']);
            }
            if chars[0] == '0' && chars[1] == '-' && chars[2] == '0' {
                assert(body =~= seq!['0', '-', '0']);
            }
        }
    }
    if kingside {
        return Ok(
            SanMove {
                piece: Piece::King,
                from_file: None,
                from_rank: None,
                capture: false,
                to: None,
                promotion: None,
                check,
                checkmate,
                castle: Some(CastleSide::Kingside),
            },
        );
    }
    let queenside = len == 5 && ((chars[0] == 'O' && chars[1] == '-' && chars[2] == 'O' && chars[3]
        == '-' && chars[4] == 'O') || (chars[0] == '0' && chars[1] == '-' && chars[2] == '0'
        && chars[3] == '-' && chars[4] == '0'));
    assert(queenside == is_queenside_text(body)) by {
        if is_queenside_text(body) {
            assert(body.len() == 5);
            assert(body[0] == chars[0] && body[1] == chars[1] && body[2] == chars[2] && body[3]
                == chars[3] && body[4] == chars[4]);
        }
        if len == 5 {
            if chars[0] == 'O' && chars[1] == '-' && chars[2] == 'O' && chars[3] == '-' && chars[4]
                == 'O' {
                assert(body =~= seq!['O', '-', 'O', '-', 'O']);
            }
            if chars[0] == '0' && chars[1] == '-' && chars[2] == '0' && chars[3] == '-' && chars[4]
                == '0' {
                assert(body =~= seq!['0', '-', '0', '-', '0']);
            }
        }
    }
    if queenside {
        return Ok(
            SanMove {
                piece: Piece::King,
                from_file: None,
                from_rank: None,
                capture: false,
                to: None,
                promotion: None,
                check,
                checkmate,
                castle: Some(CastleSide::Queenside),
            },
        );
    }
    parse_move_body(&chars, len, check, checkmate)
}

/// Parses the non-castling body `v[..n]` of a move.
fn parse_move_body(v: &Vec<char>, n: usize, check: bool, checkmate: bool) -> (r: Result<
    SanMove,
    ParseError,
>)
    requires
        n <= v@.len(),
    ensures
        san_outcome(r) == move_of_body(v@.take(n as int), check, checkmate),
{
    reveal(move_of_body);
    let ghost body = v@.take(n as int);
    if n == 0 {
        return Err(ParseError::TooShort);
    }
    let first = v[0];
    assert(body[0] == first);
    let mut piece = Piece::Pawn;
    let mut start: usize = 0;
    if is_ascii_uppercase(first) {
        match Piece::from_char(first) {
            None => {
                return Err(ParseError::UnknownPiece(first));
            },
            Some(p) => {
                piece = p;
                start = 1;
            },
        }
    }
    let mut end = n;
    let mut promotion: Option<Piece> = None;
    if n >= 2 && v[n - 2] == '=' {
        let pc = v[n - 1];
        assert(body[n - 2] == '=' && body[n - 1] == pc);
        match Piece::from_char(pc) {
            None => {
                return Err(ParseError::BadPromotion(pc));
            },
            Some(p) => {
                if p == Piece::King {
                    return Err(ParseError::BadPromotion(pc));
                }
                promotion = Some(p);
                end = n - 2;
            },
        }
    } else {
        assert(!(n >= 2 && body[n - 2] == '='));
    }
    if end < start + 2 {
        return Err(ParseError::TooShort);
    }
    assert(v@.subrange(end - 2, end as int) == body.subrange(end - 2, end as int));
    let to = match coord_in(v, end - 2, end) {
        None => {
            return Err(ParseError::BadSquare(string_of(v, end - 2, end)));
        },
        Some(sq) => sq,
    };
    let ghost middle = body.subrange(start as int, end - 2);
    let ghost promoted = n >= 2 && body[n - 2] == '=';
    assert(start == (if is_upper(body[0]) { 1int } else { 0int }));
    assert(end == (if promoted { n - 2 } else { n as int }));
    assert(piece == (if is_upper(body[0]) { Piece::from_letter(body[0])->0 } else { Piece::Pawn }));
    assert(promotion == (if promoted { Piece::from_letter(body[n - 1]) } else { None }));
    assert(square_of_coord(body.subrange(end - 2, end as int)) == Some(to));
    let stop = end - 2;
    assert(v@.subrange(start as int, stop as int) == middle);
    let (from_file, from_rank, capture) = match read_middle(v, start, stop) {
        None => {
            return Err(ParseError::TrailingGarbage(garbage_text(v, start, stop)));
        },
        Some(parts) => parts,
    };
    if piece == Piece::Pawn && capture && from_file.is_none() {
        return Err(ParseError::TrailingGarbage(garbage_text(v, start, stop)));
    }
    Ok(
        SanMove {
            piece,
            from_file,
            from_rank,
            capture,
            to: Some(to),
            promotion,
            check,
            checkmate,
            castle: None,
        },
    )
}

/// The text that the refused middle `v[start..stop]` is reported with.
fn garbage_text(v: &Vec<char>, start: usize, stop: usize) -> (s: String)
    requires
        start <= stop <= v@.len(),
    ensures
        s@ == garbage_of(v@.subrange(start as int, stop as int)),
{
    let mut marks: Vec<char> = Vec::new();
    let mut i = start;
    while i < stop
        invariant
            start <= i <= stop <= v@.len(),
            marks@ == without_captures(v@.subrange(start as int, i as int)),
        decreases stop - i,
    {
        let c = v[i];
        assert(v@.subrange(start as int, i + 1).drop_last() == v@.subrange(start as int, i as int));
        if c != 'x' {
            marks.push(c);
        }
        i += 1;
    }
    let n = marks.len();
    if n > 2 {
        return string_of(&marks, 0, n);
    }
    if n > 0 && !(('a' <= marks[0] && marks[0] <= 'h') || ('1' <= marks[0] && marks[0] <= '8')) {
        return string_of(&marks, 0, 1);
    }
    if n > 1 && !(('a' <= marks[1] && marks[1] <= 'h') || ('1' <= marks[1] && marks[1] <= '8')) {
        return string_of(&marks, 1, 2);
    }
    string_of(v, start, stop)
}

/// Reads the text `v[start..stop]` between the piece letter and the destination.
fn read_middle(v: &Vec<char>, start: usize, stop: usize) -> (r: Option<(Option<u8>, Option<u8>, bool)>)
    requires
        start <= stop <= v@.len(),
    ensures
        r == middle_parts(v@.subrange(start as int, stop as int)),
{
    let ghost m = v@.subrange(start as int, stop as int);
    assert(forall|j: int| 0 <= j < m.len() ==> m[j] == #[trigger] v@[start + j]);
    let mut i = start;
    let mut from_file: Option<u8> = None;
    if i < stop && 'a' <= v[i] && v[i] <= 'h' {
        from_file = Some(((v[i] as u32) - ('a' as u32)) as u8);
        i += 1;
    }
    let i1 = i;
    let mut from_rank: Option<u8> = None;
    if i < stop && '1' <= v[i] && v[i] <= '8' {
        from_rank = Some(((v[i] as u32) - ('1' as u32)) as u8);
        i += 1;
    }
    let i2 = i;
    let mut capture = false;
    if i < stop && v[i] == 'x' {
        capture = true;
        i += 1;
    }
    assert(i1 - start == (if m.len() > 0 && is_file_char(m[0]) { 1int } else { 0int }));
    assert(i2 - start == (if m.len() > i1 - start && is_rank_char(m[i1 - start]) {
        i1 - start + 1
    } else {
        i1 - start
    }));
    if i != stop {
        return None;
    }
    Some((from_file, from_rank, capture))
}

/// The piece letter written before a move: none for a pawn.
pub open spec fn piece_text(p: Piece) -> Seq<char> {
    if p == Piece::Pawn {
        seq![]
    } else {
        seq![p.letter()]
    }
}

pub open spec fn from_file_text(file: Option<u8>) -> Seq<char> {
    match file {
        Some(f) => seq![file_letter(f)],
        None => seq![],
    }
}

pub open spec fn from_rank_text(rank: Option<u8>) -> Seq<char> {
    match rank {
        Some(r) => decimal_text((r + 1) as nat),
        None => seq![],
    }
}

pub open spec fn capture_text(capture: bool) -> Seq<char> {
    if capture {
        seq!['x']
    } else {
        seq![]
    }
}

pub open spec fn to_text(to: Option<Square>) -> Seq<char> {
    match to {
        Some(sq) => sq.text(),
        None => seq![],
    }
}

pub open spec fn promotion_text(promotion: Option<Piece>) -> Seq<char> {
    match promotion {
        Some(p) => seq!['=', p.letter()],
        None => seq![],
    }
}

impl SanMove {
    /// The move written without its check suffix.
    pub open spec fn body_text(self) -> Seq<char> {
        match self.castle {
            Some(CastleSide::Kingside) => seq!['O', '-', 'O'],
            Some(CastleSide::Queenside) => seq!['O', '-', 'O', '-', 'O'],
            None => self.move_text(),
        }
    }

    /// The text of a move that is not a castle, without its suffix.
    pub open spec fn move_text(self) -> Seq<char> {
        self.origin_text() + self.target_text()
    }

    /// `#` for checkmate (which wins over check), `+` for check.
    pub open spec fn suffix_text(self) -> Seq<char> {
        if self.checkmate {
            seq!['#']
        } else if self.check {
            seq!['+']
        } else {
            seq![]
        }
    }

    /// What `Display` writes for the move.
    pub open spec fn text(self) -> Seq<char> {
        self.body_text() + self.suffix_text()
    }

    /// Whether the text can be written: files and ranks are turned into
    /// characters and numbers in `u8`. A castle writes none of them.
    pub open spec fn printable(self) -> bool {
        self.castle is None ==> {
            &&& (self.from_file matches Some(f) ==> f <= 158)
            &&& (self.from_rank matches Some(r) ==> r <= 254)
            &&& (self.to matches Some(sq) ==> sq.printable())
        }
    }

    /// A move as the parser produces it: a castle is a bare king move; any
    /// other move has an on-board destination, on-board disambiguation, a
    /// source file if it is a pawn capture, and a promotion (if any) to a
    /// knight, bishop, rook or queen; check and checkmate are not both set.
    pub open spec fn well_formed(self) -> bool {
        &&& match self.castle {
            Some(_) => {
                &&& self.piece == Piece::King
                &&& self.from_file is None
                &&& self.from_rank is None
                &&& !self.capture
                &&& self.to is None
                &&& self.promotion is None
            },
            None => {
                &&& (self.from_file matches Some(f) ==> f < 8)
                &&& (self.from_rank matches Some(r) ==> r < 8)
                &&& (self.to matches Some(sq) && sq.on_board())
                &&& (self.promotion matches Some(p) ==> p != Piece::Pawn && p != Piece::King)
                &&& (self.piece == Piece::Pawn && self.capture ==> self.from_file is Some)
            },
        }
        &&& !(self.check && self.checkmate)
    }

    /// The piece letter and disambiguation of a move.
    pub open spec fn origin_text(self) -> Seq<char> {
        piece_text(self.piece) + from_file_text(self.from_file) + from_rank_text(self.from_rank)
    }

    /// The capture marker, destination and promotion of a move.
    pub open spec fn target_text(self) -> Seq<char> {
        capture_text(self.capture) + to_text(self.to) + promotion_text(self.promotion)
    }

    fn write_origin(&self, s: &mut String)
        requires
            self.printable(),
            self.castle is None,
        ensures
            final(s)@ == old(s)@ + self.origin_text(),
    {
        let ghost s0 = s@;
        if self.piece != Piece::Pawn {
            push_char(s, self.piece.to_char());
        }
        assert(s@ =~= s0 + piece_text(self.piece));
        if let Some(file) = self.from_file {
            push_char(s, (97u8 + file) as char);
        }
        assert(s@ =~= s0 + (piece_text(self.piece) + from_file_text(self.from_file)));
        if let Some(rank) = self.from_rank {
            push_decimal(s, (rank + 1) as u64);
        }
        assert(s@ =~= s0 + self.origin_text());
    }

    fn write_target(&self, s: &mut String)
        requires
            self.printable(),
            self.castle is None,
        ensures
            final(s)@ == old(s)@ + self.target_text(),
    {
        let ghost s0 = s@;
        if self.capture {
            push_char(s, 'x');
        }
        assert(s@ =~= s0 + capture_text(self.capture));
        if let Some(to) = self.to {
            to.write_to(s);
        }
        assert(s@ =~= s0 + (capture_text(self.capture) + to_text(self.to)));
        if let Some(p) = self.promotion {
            push_char(s, '=');
            push_char(s, p.to_char());
        }
        assert(s@ =~= s0 + self.target_text());
    }

    /// Formats the move in SAN, as `Display` does.
    pub fn to_string(&self) -> (s: String)
        requires
            self.printable(),
        ensures
            s@ == self.text(),
    {
        let mut s = String::new();
        match self.castle {
            Some(CastleSide::Kingside) => {
                push_char(&mut s, 'O');
                push_char(&mut s, '-');
                push_char(&mut s, 'O');
            },
            Some(CastleSide::Queenside) => {
                push_char(&mut s, 'O');
                push_char(&mut s, '-');
                push_char(&mut s, 'O');
                push_char(&mut s, '-');
                push_char(&mut s, 'O');
            },
            None => {
                self.write_origin(&mut s);
                self.write_target(&mut s);
                assert(s@ =~= self.move_text());
            },
        }
        assert(s@ == self.body_text());
        if self.checkmate {
            push_char(&mut s, '#');
        } else if self.check {
            push_char(&mut s, '+');
        }
        assert(s@ == self.text());
        s
    }
}


/// Every move that the parser returns is well formed.
pub proof fn lemma_parsed_move_well_formed(s: Seq<char>)
    ensures
        san_result(s) matches Ok(m) ==> m.well_formed(),
{
    reveal(move_of_body);
}

/// Writing an on-board square gives a coordinate that names it again.
pub proof fn lemma_square_text(sq: Square)
    requires
        sq.on_board(),
    ensures
        sq.text().len() == 2,
        sq.text()[0] == file_letter(sq.file),
        is_file_char(sq.text()[0]),
        is_rank_char(sq.text()[1]),
        square_of_coord(sq.text()) == Some(sq),
{
    let t = sq.text();
    assert(decimal_text((sq.rank + 1) as nat) == seq![digit_char((sq.rank + 1) as nat)]);
    assert(t =~= seq![file_letter(sq.file), digit_char((sq.rank + 1) as nat)]);
}

/// Writing a well-formed move and parsing the text gives the move back.
pub proof fn lemma_text_parses_back(m: SanMove)
    requires
        m.well_formed(),
    ensures
        san_result(m.text()) == Ok::<SanMove, ParseErrorView>(m),
{
    let body = m.body_text();
    let t = m.text();
    if m.checkmate {
        assert(t.last() == '#');
        assert(t.drop_last() =~= body);
    } else if m.check {
        assert(t.last() == '+');
        assert(t.drop_last() =~= body);
    } else {
        assert(t =~= body);
    }
    match m.castle {
        Some(CastleSide::Kingside) => {
            assert(strip_check(t) == (body, m.check, m.checkmate));
            assert(is_kingside_text(body));
        },
        Some(CastleSide::Queenside) => {
            assert(strip_check(t) == (body, m.check, m.checkmate));
            assert(!is_kingside_text(body)) by {
                assert(body.len() == 5);
            }
            assert(is_queenside_text(body));
        },
        None => {
            lemma_body_parses_back(m);
        },
    }
}

/// The source file, source rank and capture marker of a well-formed move
/// read back as themselves.
proof fn lemma_middle_text(m: SanMove)
    requires
        m.well_formed(),
        m.castle is None,
    ensures
        middle_parts(
            from_file_text(m.from_file) + from_rank_text(m.from_rank) + capture_text(m.capture),
        ) == Some((m.from_file, m.from_rank, m.capture)),
{
    let f = from_file_text(m.from_file);
    let r = from_rank_text(m.from_rank);
    let x = capture_text(m.capture);
    let mid = f + r + x;
    if let Some(rk) = m.from_rank {
        assert(r == seq![digit_char((rk + 1) as nat)]);
    }
    let lf = f.len() as int;
    let lr = r.len() as int;
    if lf > 0 {
        assert(mid[0] == f[0]);
    } else if lr > 0 {
        assert(mid[0] == r[0]);
    } else if x.len() > 0 {
        assert(mid[0] == x[0]);
    }
    if lr > 0 {
        assert(mid[lf] == r[0]);
    } else if x.len() > 0 {
        assert(mid[lf] == x[0]);
    }
    if x.len() > 0 {
        assert(mid[lf + lr] == 'x');
    }
}

/// What reading needs to know of the piece letter and disambiguation.
proof fn lemma_origin_text(m: SanMove)
    requires
        m.well_formed(),
        m.castle is None,
    ensures
        ({
            let p = piece_text(m.piece);
            let fr = from_file_text(m.from_file) + from_rank_text(m.from_rank);
            let o = m.origin_text();
            &&& o == p + fr
            &&& fr.len() <= 2
            &&& p.len() > 0 ==> p.len() == 1 && o[0] == m.piece.letter()
            &&& p.len() == 0 ==> m.piece == Piece::Pawn
            &&& forall|i: int| 0 <= i < fr.len() ==> !is_upper(#[trigger] fr[i]) && fr[i] != 'x'
                && fr[i] != '=' && fr[i] != 'O' && fr[i] != '0'
        }),
{
    let f = from_file_text(m.from_file);
    let r = from_rank_text(m.from_rank);
    if let Some(rk) = m.from_rank {
        assert(r == seq![digit_char((rk + 1) as nat)]);
    }
    let fr = f + r;
    assert forall|i: int| 0 <= i < fr.len() implies !is_upper(#[trigger] fr[i]) && fr[i] != 'x'
        && fr[i] != '=' && fr[i] != 'O' && fr[i] != '0' by {
        if i < f.len() {
            assert(fr[i] == f[i]);
        } else {
            assert(fr[i] == r[i - f.len()]);
        }
    }
    assert(m.origin_text() =~= piece_text(m.piece) + fr);
}

/// What reading needs to know of the capture marker, destination and promotion.
proof fn lemma_target_text(m: SanMove)
    requires
        m.well_formed(),
        m.castle is None,
    ensures
        ({
            let x = capture_text(m.capture);
            let sq = to_text(m.to);
            let g = m.target_text();
            let k = g.len() as int;
            &&& g == x + sq + promotion_text(m.promotion)
            &&& x.len() <= 1
            &&& x.len() == 1 ==> g[0] == 'x'
            &&& sq.len() == 2
            &&& g.subrange(x.len() as int, x.len() + 2int) == sq
            &&& square_of_coord(sq) == m.to
            &&& !is_upper(g[0]) && g[0] != '=' && g[0] != 'O' && g[0] != '0'
            &&& m.promotion is Some ==> {
                &&& k == x.len() + 4
                &&& g[k - 2] == '='
                &&& g[k - 1] == m.promotion->0.letter()
                &&& Piece::from_letter(g[k - 1]) == m.promotion
            }
            &&& m.promotion is None ==> {
                &&& k == x.len() + 2
                &&& g[k - 2] != '='
                &&& is_rank_char(g[k - 1])
            }
        }),
{
    let to = m.to->0;
    lemma_square_text(to);
    let x = capture_text(m.capture);
    let sq = to.text();
    let pr = promotion_text(m.promotion);
    let g = m.target_text();
    assert(g == x + sq + pr);
    assert(g.subrange(x.len() as int, x.len() + 2int) =~= sq);
    if x.len() == 0 {
        assert(g[0] == sq[0]);
    }
}

/// The conditions under which a body reads as the move `m`.
proof fn lemma_move_of_body_ok(body: Seq<char>, start: int, end: int, m: SanMove)
    requires
        body.len() > 0,
        start == (if is_upper(body[0]) { 1int } else { 0int }),
        is_upper(body[0]) ==> Piece::from_letter(body[0]) == Some(m.piece),
        !is_upper(body[0]) ==> m.piece == Piece::Pawn,
        (body.len() >= 2 && body[body.len() - 2] == '=') ==> {
            &&& Piece::from_letter(body[body.len() - 1]) == m.promotion
            &&& m.promotion is Some
            &&& m.promotion != Some(Piece::King)
            &&& end == body.len() - 2
        },
        !(body.len() >= 2 && body[body.len() - 2] == '=') ==> m.promotion is None && end
            == body.len(),
        end >= start + 2,
        m.to is Some,
        square_of_coord(body.subrange(end - 2, end)) == m.to,
        middle_parts(body.subrange(start, end - 2)) == Some((m.from_file, m.from_rank, m.capture)),
        m.piece == Piece::Pawn && m.capture ==> m.from_file is Some,
        m.castle is None,
    ensures
        move_of_body(body, m.check, m.checkmate) == Ok::<SanMove, ParseErrorView>(m),
{
    reveal(move_of_body);
}

/// The non-castling part of the round trip.
proof fn lemma_body_parses_back(m: SanMove)
    requires
        m.well_formed(),
        m.castle is None,
    ensures
        san_result(m.text()) == Ok::<SanMove, ParseErrorView>(m),
{
    let body = m.body_text();
    lemma_body_reads_back(m);
    assert(!is_kingside_text(body) && !is_queenside_text(body)) by {
        lemma_body_not_castle(m);
    }
    let t = m.text();
    assert(strip_check(t) == (body, m.check, m.checkmate)) by {
        if m.checkmate {
            assert(t.drop_last() =~= body);
        } else if m.check {
            assert(t.drop_last() =~= body);
        } else {
            assert(t =~= body);
        }
    }
}

proof fn lemma_body_not_castle(m: SanMove)
    requires
        m.well_formed(),
        m.castle is None,
    ensures
        !is_kingside_text(m.body_text()),
        !is_queenside_text(m.body_text()),
{
    lemma_target_text(m);
    let o = m.origin_text();
    let g = m.target_text();
    let body = m.body_text();
    assert(body == o + g);
    let n = body.len() as int;
    let k = g.len() as int;
    assert(body[n - 1] == g[k - 1]);
    if is_kingside_text(body) || is_queenside_text(body) {
        assert(body[n - 1] == 'O' || body[n - 1] == '0');
        assert(m.promotion is Some);
    }
}

proof fn lemma_body_reads_back(m: SanMove)
    requires
        m.well_formed(),
        m.castle is None,
    ensures
        move_of_body(m.body_text(), m.check, m.checkmate) == Ok::<SanMove, ParseErrorView>(m),
{
    lemma_origin_text(m);
    lemma_target_text(m);
    lemma_middle_text(m);
    let p = piece_text(m.piece);
    let f = from_file_text(m.from_file);
    let r = from_rank_text(m.from_rank);
    let x = capture_text(m.capture);
    let sq = to_text(m.to);
    let pr = promotion_text(m.promotion);
    let mid = f + r + x;
    let body = m.body_text();
    lemma_regroup(p, f, r, x, sq, pr);
    assert(body == p + mid + sq + pr);
    lemma_parts4(p, mid, sq, pr);
    let n = body.len() as int;
    let start: int = p.len() as int;
    let end: int = start + mid.len() + 2;
    assert(body.subrange(start, end - 2) == mid);
    assert(body.subrange(end - 2, end) == sq);
    assert(body.subrange(end, n) == pr);
    assert forall|i: int| 0 <= i < mid.len() implies !is_upper(#[trigger] mid[i]) by {
        if i < f.len() + r.len() {
            assert(mid[i] == (f + r)[i]);
        }
    }
    assert(start == (if is_upper(body[0]) { 1int } else { 0int })
        && (is_upper(body[0]) ==> Piece::from_letter(body[0]) == Some(m.piece))) by {
        if p.len() > 0 {
            assert(body[0] == body.subrange(0, start)[0]);
        } else if mid.len() > 0 {
            assert(body[0] == body.subrange(start, end - 2)[0]);
        } else {
            assert(body[0] == body.subrange(end - 2, end)[0]);
        }
    }
    if pr.len() > 0 {
        assert(body[n - 2] == body.subrange(end, n)[0]);
        assert(body[n - 1] == body.subrange(end, n)[1]);
    } else {
        assert(body[n - 2] == body.subrange(end - 2, end)[0]);
    }
    lemma_move_of_body_ok(body, start, end, m);
}

/// Regrouping the six parts of a move's text.
proof fn lemma_regroup(
    p: Seq<char>,
    f: Seq<char>,
    r: Seq<char>,
    x: Seq<char>,
    t: Seq<char>,
    pr: Seq<char>,
)
    ensures
        (p + f + r) + (x + t + pr) == p + (f + r + x) + t + pr,
{
    assert((p + f + r) + (x + t + pr) =~= p + (f + r + x) + t + pr);
}

/// The four parts of a concatenation, read back by position.
proof fn lemma_parts4(a: Seq<char>, b: Seq<char>, c: Seq<char>, d: Seq<char>)
    ensures
        ({
            let s = a + b + c + d;
            let i = a.len() as int;
            let j = i + b.len();
            let k = j + c.len();
            &&& s.len() == k + d.len()
            &&& s.subrange(0, i) == a
            &&& s.subrange(i, j) == b
            &&& s.subrange(j, k) == c
            &&& s.subrange(k, s.len() as int) == d
        }),
{
    let s = a + b + c + d;
    let i = a.len() as int;
    let j = i + b.len();
    let k = j + c.len();
    assert(s.subrange(0, i) =~= a);
    assert(s.subrange(i, j) =~= b);
    assert(s.subrange(j, k) =~= c);
    assert(s.subrange(k, s.len() as int) =~= d);
}

/// Parsing is canonical: whatever a text parses to, writing that move and
/// parsing again gives the same move.
pub proof fn lemma_reparse(s: Seq<char>)
    ensures
        san_result(s) matches Ok(m) ==> san_result(m.text()) == Ok::<SanMove, ParseErrorView>(m),
{
    lemma_parsed_move_well_formed(s);
    if let Ok(m) = san_result(s) {
        lemma_text_parses_back(m);
    }
}

/// Every piece but the pawn is named by its letter.
pub proof fn lemma_piece_letter(p: Piece)
    ensures
        p != Piece::Pawn ==> Piece::from_letter(p.letter()) == Some(p),
        p == Piece::Pawn ==> Piece::from_letter(p.letter()) is None,
{
}


/// `'` + `t` + `'`.
pub open spec fn quoted(t: Seq<char>) -> Seq<char> {
    seq!['\''] + t + seq!['\'']
}

/// What `Display` writes for a parse error.
pub open spec fn parse_error_text(e: ParseErrorView) -> Seq<char> {
    match e {
        ParseErrorView::Empty => "empty move text"@,
        ParseErrorView::UnknownPiece(c) => "unknown piece letter "@ + quoted(seq![c]),
        ParseErrorView::BadSquare(t) => "not a valid square: "@ + quoted(t),
        ParseErrorView::BadPromotion(c) => "invalid promotion piece "@ + quoted(seq![c]),
        ParseErrorView::TrailingGarbage(t) => "unexpected trailing text: "@ + quoted(t),
        ParseErrorView::TooShort => "move text too short"@,
    }
}

/// Appends `'`, the text of `t`, and `'`.
pub fn append_quoted(s: &mut String, t: &String)
    ensures
        final(s)@ == old(s)@ + quoted(t@),
{
    let ghost s0 = s@;
    push_char(s, '\'');
    s.append(t.as_str());
    push_char(s, '\'');
    assert(s@ =~= s0 + quoted(t@));
}

/// Appends `'`, the character `c`, and `'`.
pub fn append_quoted_char(s: &mut String, c: char)
    ensures
        final(s)@ == old(s)@ + quoted(seq![c]),
{
    let ghost s0 = s@;
    push_char(s, '\'');
    push_char(s, c);
    push_char(s, '\'');
    assert(s@ =~= s0 + quoted(seq![c]));
}

impl ParseError {
    /// Formats the error message, as `Display` does.
    pub fn to_string(&self) -> (s: String)
        ensures
            s@ == parse_error_text(self@),
    {
        let mut s = String::new();
        match self {
            ParseError::Empty => s.append("empty move text"),
            ParseError::UnknownPiece(c) => {
                s.append("unknown piece letter ");
                append_quoted_char(&mut s, *c);
            },
            ParseError::BadSquare(t) => {
                s.append("not a valid square: ");
                append_quoted(&mut s, t);
            },
            ParseError::BadPromotion(c) => {
                s.append("invalid promotion piece ");
                append_quoted_char(&mut s, *c);
            },
            ParseError::TrailingGarbage(t) => {
                s.append("unexpected trailing text: ");
                append_quoted(&mut s, t);
            },
            ParseError::TooShort => s.append("move text too short"),
        }
        assert(s@ =~= parse_error_text(self@));
        s
    }
}


/// A castle written with zeros (`0-0`, `0-0-0`), which the parser accepts but
/// `Display` writes with the letter `O`.
pub open spec fn is_zero_castle_text(s: Seq<char>) -> bool {
    let body = strip_check(s).0;
    body == seq!['0', '-', '0'] || body == seq!['0', '-', '0', '-', '0']
}

/// The text of the source file, source rank and capture marker that were read
/// from `mid` is `mid` itself.
proof fn lemma_middle_parts_text(mid: Seq<char>)
    ensures
        middle_parts(mid) matches Some((file, rank, capture)) ==> from_file_text(file)
            + from_rank_text(rank) + capture_text(capture) == mid,
{
    if let Some((file, rank, capture)) = middle_parts(mid) {
        let f = from_file_text(file);
        let r = from_rank_text(rank);
        let x = capture_text(capture);
        if let Some(rk) = rank {
            assert(r == seq![digit_char((rk + 1) as nat)]);
        }
        assert(f + r + x =~= mid);
    }
}

/// A coordinate that names a square is that square's text.
pub proof fn lemma_coord_text(d: Seq<char>)
    ensures
        square_of_coord(d) matches Some(sq) ==> sq.text() == d,
{
    if let Some(sq) = square_of_coord(d) {
        assert(decimal_text((sq.rank + 1) as nat) == seq![digit_char((sq.rank + 1) as nat)]);
        assert(sq.text() =~= d);
    }
}

/// Where the parts of a body that reads as a move stand.
proof fn lemma_body_parts(body: Seq<char>, check: bool, checkmate: bool) -> (r: (int, int))
    requires
        move_of_body(body, check, checkmate) is Ok,
    ensures
        ({
            let m = move_of_body(body, check, checkmate)->Ok_0;
            let (start, end) = r;
            &&& m.check == check && m.checkmate == checkmate && m.castle is None
            &&& 0 <= start <= end - 2 && end <= body.len()
            &&& body.subrange(0, start) == piece_text(m.piece)
            &&& middle_parts(body.subrange(start, end - 2)) == Some(
                (m.from_file, m.from_rank, m.capture),
            )
            &&& m.to is Some && square_of_coord(body.subrange(end - 2, end)) == m.to
            &&& body.subrange(end, body.len() as int) == promotion_text(m.promotion)
        }),
{
    reveal(move_of_body);
    let m = move_of_body(body, check, checkmate)->Ok_0;
    let n = body.len() as int;
    let start: int = if is_upper(body[0]) { 1 } else { 0 };
    let promoted = n >= 2 && body[n - 2] == '=';
    let end: int = if promoted { n - 2 } else { n };
    assert(body.subrange(0, start) =~= piece_text(m.piece));
    assert(body.subrange(end, n) =~= promotion_text(m.promotion));
    (start, end)
}

/// A body that reads as a move is that move's text.
proof fn lemma_body_is_text(body: Seq<char>, check: bool, checkmate: bool)
    requires
        move_of_body(body, check, checkmate) is Ok,
    ensures
        ({
            let m = move_of_body(body, check, checkmate)->Ok_0;
            &&& m.body_text() == body
            &&& m.check == check && m.checkmate == checkmate
        }),
{
    let m = move_of_body(body, check, checkmate)->Ok_0;
    let (start, end) = lemma_body_parts(body, check, checkmate);
    let n = body.len() as int;
    let a = body.subrange(0, start);
    let mid = body.subrange(start, end - 2);
    let d = body.subrange(end - 2, end);
    let q = body.subrange(end, n);
    lemma_split4(body, start, end - 2, end);
    let p = piece_text(m.piece);
    let f = from_file_text(m.from_file);
    let r = from_rank_text(m.from_rank);
    let x = capture_text(m.capture);
    let t = to_text(m.to);
    let pr = promotion_text(m.promotion);
    lemma_middle_parts_text(mid);
    lemma_coord_text(d);
    lemma_regroup(p, f, r, x, t, pr);
    assert(m.body_text() == (p + f + r) + (x + t + pr));
}

/// A sequence is the concatenation of its pieces between three cut points.
proof fn lemma_split4(s: Seq<char>, i: int, j: int, k: int)
    requires
        0 <= i <= j <= k <= s.len(),
    ensures
        s == s.subrange(0, i) + s.subrange(i, j) + s.subrange(j, k) + s.subrange(k, s.len() as int),
{
    assert(s =~= s.subrange(0, i) + s.subrange(i, j) + s.subrange(j, k) + s.subrange(
        k,
        s.len() as int,
    ));
}

/// Parsing then writing gives the text back whenever the text is canonical,
/// which every text the parser accepts is, but for a castle written with
/// zeros.
pub proof fn lemma_canonical_text_written_back(s: Seq<char>)
    requires
        !is_zero_castle_text(s),
    ensures
        san_result(s) matches Ok(m) ==> m.text() == s,
{
    if let Ok(m) = san_result(s) {
        let (body, check, checkmate) = strip_check(s);
        if !is_kingside_text(body) && !is_queenside_text(body) {
            lemma_body_is_text(body, check, checkmate);
        }
        assert(m.body_text() == body && m.check == check && m.checkmate == checkmate);
        if s.last() == '#' {
            assert(s =~= body + seq!['#']);
        } else if s.last() == '+' {
            assert(s =~= body + seq!['+']);
        } else {
            assert(m.text() =~= body);
        }
    }
}

} // verus!
