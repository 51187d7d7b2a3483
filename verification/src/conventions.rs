//! What the letters, digits and fields of the two notations stand for,
//! stated character by character: the piece letters, the coordinates of a
//! square, where each part of a written move stands, which square each
//! letter of a placement field fills, and what the other FEN fields hold.

use vstd::prelude::*;

use crate::san::{
    capture_text, from_file_text, from_rank_text, move_of_body, piece_text, promotion_text,
    san_result, square_of_coord, CastleSide, ParseErrorView, Piece, SanMove, Square,
};
use crate::fen::{
    board_text, castling_from, castling_of, castling_text, empty_cells, fen_char_of, fen_result,
    lemma_fen_char, no_castling, piece_of_fen_char, placement_of, placement_text, rank_cells,
    rank_cells_from, row_text_from, rows_of, run_text, BoardView, CastlingRights, Color,
    FenErrorView,
};
use crate::fen_canonical::lemma_rows_of_parts;
use crate::fen_round_trip::{lemma_board_words, lemma_castling_reads_back, lemma_ranks_split};
use crate::text::{
    all_digits, decimal_text, digit_char, digit_value, digits_value, is_digit,
    lemma_u32_of_decimal_text, pieces, u32_of_text, unsigned_digits, words,
};

verus! {

/// SAN names the knight `N`, the bishop `B`, the rook `R`, the queen `Q` and
/// the king `K`; no other character names a piece, and a pawn is written `P`
/// where it needs a letter.
pub proof fn lemma_san_piece_letters()
    ensures
        Piece::from_letter('N') == Some(Piece::Knight),
        Piece::from_letter('B') == Some(Piece::Bishop),
        Piece::from_letter('R') == Some(Piece::Rook),
        Piece::from_letter('Q') == Some(Piece::Queen),
        Piece::from_letter('K') == Some(Piece::King),
        forall|c: char|
            c != 'N' && c != 'B' && c != 'R' && c != 'Q' && c != 'K' ==> Piece::from_letter(c)
                is None,
        Piece::Pawn.letter() == 'P',
        Piece::Knight.letter() == 'N',
        Piece::Bishop.letter() == 'B',
        Piece::Rook.letter() == 'R',
        Piece::Queen.letter() == 'Q',
        Piece::King.letter() == 'K',
{
}

/// A coordinate is a file letter `a`-`h` (file 0 to 7) followed by a rank
/// digit `1`-`8` (rank 0 to 7); any other pair of characters names no square.
pub proof fn lemma_coordinate_chars(a: char, d: char)
    ensures
        square_of_coord(seq![a, d]) == (if 'a' <= a <= 'h' && '1' <= d <= '8' {
            Some(Square { file: (a as int - 97) as u8, rank: (d as int - 49) as u8 })
        } else {
            None
        }),
{
}

/// A coordinate has exactly two characters.
pub proof fn lemma_coordinate_length(s: Seq<char>)
    ensures
        s.len() != 2 ==> square_of_coord(s) is None,
{
}

/// The text of an on-board square is its file letter, counted from `a`, then
/// its rank digit, counted from `1`.
pub proof fn lemma_square_chars(sq: Square)
    requires
        sq.on_board(),
    ensures
        sq.text().len() == 2,
        sq.text()[0] as int == 97 + sq.file,
        sq.text()[1] as int == 49 + sq.rank,
{
    assert(decimal_text((sq.rank + 1) as nat) == seq![digit_char((sq.rank + 1) as nat)]);
}

/// The origin of a written move: the piece letter (none for a pawn), then
/// the source file letter and the source rank digit when given.
proof fn lemma_origin_layout(m: SanMove)
    requires
        m.well_formed(),
        m.castle is None,
    ensures
        ({
            let o = m.origin_text();
            let k0: int = if m.piece == Piece::Pawn { 0 } else { 1 };
            let k1: int = if m.from_file is Some { k0 + 1 } else { k0 };
            let k2: int = if m.from_rank is Some { k1 + 1 } else { k1 };
            &&& o.len() == k2
            &&& m.piece != Piece::Pawn ==> o[0] == m.piece.letter()
            &&& (m.from_file matches Some(f) ==> o[k0] as int == 97 + f)
            &&& (m.from_rank matches Some(r) ==> o[k1] as int == 49 + r)
        }),
{
    let a = piece_text(m.piece);
    let b = from_file_text(m.from_file);
    let c = from_rank_text(m.from_rank);
    if let Some(r) = m.from_rank {
        assert(decimal_text((r + 1) as nat) == seq![digit_char((r + 1) as nat)]);
    }
    assert(m.origin_text() == a + b + c);
}

/// The target of a written move: `x` for a capture, the destination's file
/// letter and rank digit, then `=` and the promotion letter.
proof fn lemma_target_layout(m: SanMove)
    requires
        m.well_formed(),
        m.castle is None,
    ensures
        ({
            let t = m.target_text();
            let j: int = if m.capture { 1 } else { 0 };
            let sq = m.to->0;
            &&& t.len() == (if m.promotion is Some { j + 4 } else { j + 2 })
            &&& (m.capture ==> t[0] == 'x')
            &&& t[j] as int == 97 + sq.file
            &&& t[j + 1] as int == 49 + sq.rank
            &&& (m.promotion matches Some(p) ==> t[j + 2] == '=' && t[j + 3] == p.letter())
        }),
{
    let d = capture_text(m.capture);
    let sq = m.to->0;
    let e = sq.text();
    let f = promotion_text(m.promotion);
    lemma_square_chars(sq);
    assert(m.target_text() == d + e + f);
}

/// Where each part of a written move that is not a castle stands: the piece
/// letter (none for a pawn), then the source file letter and the source rank
/// digit when given, then `x` for a capture, then the destination's file
/// letter and rank digit, then `=` and the promotion letter, then `#` for
/// checkmate or `+` for check.
pub proof fn lemma_move_text_layout(m: SanMove)
    requires
        m.well_formed(),
        m.castle is None,
    ensures
        ({
            let t = m.text();
            let k0: int = if m.piece == Piece::Pawn { 0 } else { 1 };
            let k1: int = if m.from_file is Some { k0 + 1 } else { k0 };
            let k2: int = if m.from_rank is Some { k1 + 1 } else { k1 };
            let k3: int = if m.capture { k2 + 1 } else { k2 };
            let k4: int = if m.promotion is Some { k3 + 4 } else { k3 + 2 };
            let sq = m.to->0;
            &&& m.piece == Piece::Knight ==> t[0] == 'N'
            &&& m.piece == Piece::Bishop ==> t[0] == 'B'
            &&& m.piece == Piece::Rook ==> t[0] == 'R'
            &&& m.piece == Piece::Queen ==> t[0] == 'Q'
            &&& m.piece == Piece::King ==> t[0] == 'K'
            &&& (m.from_file matches Some(f) ==> t[k0] as int == 97 + f)
            &&& (m.from_rank matches Some(r) ==> t[k1] as int == 49 + r)
            &&& (m.capture ==> t[k2] == 'x')
            &&& t[k3] as int == 97 + sq.file
            &&& t[k3 + 1] as int == 49 + sq.rank
            &&& (m.promotion is Some ==> t[k3 + 2] == '=')
            &&& (m.promotion == Some(Piece::Knight) ==> t[k3 + 3] == 'N')
            &&& (m.promotion == Some(Piece::Bishop) ==> t[k3 + 3] == 'B')
            &&& (m.promotion == Some(Piece::Rook) ==> t[k3 + 3] == 'R')
            &&& (m.promotion == Some(Piece::Queen) ==> t[k3 + 3] == 'Q')
            &&& (m.checkmate ==> t.len() == k4 + 1 && t[k4] == '#')
            &&& (m.check ==> t.len() == k4 + 1 && t[k4] == '+')
            &&& (!m.check && !m.checkmate ==> t.len() == k4)
        }),
{
    let o = m.origin_text();
    let tg = m.target_text();
    let g = m.suffix_text();
    lemma_origin_layout(m);
    lemma_target_layout(m);
    let t = m.text();
    assert(t == o + tg + g);
    let n = o.len();
    assert forall|i: int| 0 <= i < n implies t[i] == o[i] by {}
    assert forall|i: int| 0 <= i < tg.len() implies t[n + i] == tg[i] by {}
    assert forall|i: int| 0 <= i < g.len() implies t[n + tg.len() + i] == g[i] by {}
}

/// The piece a SAN piece letter names.
pub open spec fn named_piece(c: char) -> Piece {
    if c == 'N' {
        Piece::Knight
    } else if c == 'B' {
        Piece::Bishop
    } else if c == 'R' {
        Piece::Rook
    } else if c == 'Q' {
        Piece::Queen
    } else {
        Piece::King
    }
}

/// The square that a file letter and a rank digit name, counted from `a` and `1`.
pub open spec fn square_at(a: char, d: char) -> Square {
    Square { file: (a as int - 97) as u8, rank: (d as int - 49) as u8 }
}

/// A move as the parser gives it when it has no promotion and no suffix.
pub open spec fn plain_move(
    piece: Piece,
    from_file: Option<u8>,
    from_rank: Option<u8>,
    capture: bool,
    to: Square,
) -> SanMove {
    SanMove {
        piece,
        from_file,
        from_rank,
        capture,
        to: Some(to),
        promotion: None,
        check: false,
        checkmate: false,
        castle: None,
    }
}

/// A piece letter then a coordinate, such as `Bb5`, is a move of that piece
/// to that square; a coordinate alone, such as `e4`, is a pawn move.
pub proof fn lemma_read_simple_move(c: char, a: char, d: char)
    requires
        c == 'N' || c == 'B' || c == 'R' || c == 'Q' || c == 'K',
        'a' <= a <= 'h',
        '1' <= d <= '8',
    ensures
        san_result(seq![c, a, d]) == Ok::<SanMove, ParseErrorView>(
            plain_move(named_piece(c), None, None, false, square_at(a, d)),
        ),
        san_result(seq![a, d]) == Ok::<SanMove, ParseErrorView>(
            plain_move(Piece::Pawn, None, None, false, square_at(a, d)),
        ),
{
    reveal(move_of_body);
    let s = seq![c, a, d];
    assert(s.subrange(1, 3) =~= seq![a, d]);
    assert(s.subrange(1, 1) =~= Seq::<char>::empty());
    let p = seq![a, d];
    assert(p.subrange(0, 2) =~= p);
    assert(p.subrange(0, 0) =~= Seq::<char>::empty());
}

/// In `exd5` the letter before `x` is the pawn's source file, counted from `a`.
pub proof fn lemma_read_pawn_capture(s: char, a: char, d: char)
    requires
        'a' <= s <= 'h',
        'a' <= a <= 'h',
        '1' <= d <= '8',
    ensures
        san_result(seq![s, 'x', a, d]) == Ok::<SanMove, ParseErrorView>(
            plain_move(Piece::Pawn, Some((s as int - 97) as u8), None, true, square_at(a, d)),
        ),
{
    reveal(move_of_body);
    let t = seq![s, 'x', a, d];
    assert(t.subrange(2, 4) =~= seq![a, d]);
    assert(t.subrange(0, 2) =~= seq![s, 'x']);
}

/// In `Nb1xd2` the letter and digit after the piece letter are the source
/// file, counted from `a`, and the source rank, counted from `1`.
pub proof fn lemma_read_disambiguated_move(c: char, s: char, r: char, a: char, d: char)
    requires
        c == 'N' || c == 'B' || c == 'R' || c == 'Q' || c == 'K',
        'a' <= s <= 'h',
        '1' <= r <= '8',
        'a' <= a <= 'h',
        '1' <= d <= '8',
    ensures
        san_result(seq![c, s, r, 'x', a, d]) == Ok::<SanMove, ParseErrorView>(
            plain_move(
                named_piece(c),
                Some((s as int - 97) as u8),
                Some((r as int - 49) as u8),
                true,
                square_at(a, d),
            ),
        ),
        san_result(seq![c, s, a, d]) == Ok::<SanMove, ParseErrorView>(
            plain_move(named_piece(c), Some((s as int - 97) as u8), None, false, square_at(a, d)),
        ),
        san_result(seq![c, r, a, d]) == Ok::<SanMove, ParseErrorView>(
            plain_move(named_piece(c), None, Some((r as int - 49) as u8), false, square_at(a, d)),
        ),
{
    reveal(move_of_body);
    let t = seq![c, s, r, 'x', a, d];
    assert(t.subrange(4, 6) =~= seq![a, d]);
    assert(t.subrange(1, 4) =~= seq![s, r, 'x']);
    let u = seq![c, s, a, d];
    assert(u.subrange(2, 4) =~= seq![a, d]);
    assert(u.subrange(1, 2) =~= seq![s]);
    let w = seq![c, r, a, d];
    assert(w.subrange(2, 4) =~= seq![a, d]);
    assert(w.subrange(1, 2) =~= seq![r]);
}

/// In `e8=Q` the letter after `=` is the piece promoted to.
pub proof fn lemma_read_promotion(a: char, d: char, c: char)
    requires
        c == 'N' || c == 'B' || c == 'R' || c == 'Q',
        'a' <= a <= 'h',
        '1' <= d <= '8',
    ensures
        san_result(seq![a, d, '=', c]) == Ok::<SanMove, ParseErrorView>(
            SanMove {
                promotion: Some(named_piece(c)),
                ..plain_move(Piece::Pawn, None, None, false, square_at(a, d))
            },
        ),
{
    reveal(move_of_body);
    let t = seq![a, d, '=', c];
    assert(t.subrange(0, 2) =~= seq![a, d]);
    assert(t.subrange(0, 0) =~= Seq::<char>::empty());
}

/// FEN names the pieces by the same letters, capital for white and small
/// for black, with `P`/`p` for pawns; no other character names a piece. The
/// side to move is `w` or `b`.
pub proof fn lemma_fen_letters()
    ensures
        piece_of_fen_char('P') == Some((Piece::Pawn, Color::White)),
        piece_of_fen_char('N') == Some((Piece::Knight, Color::White)),
        piece_of_fen_char('B') == Some((Piece::Bishop, Color::White)),
        piece_of_fen_char('R') == Some((Piece::Rook, Color::White)),
        piece_of_fen_char('Q') == Some((Piece::Queen, Color::White)),
        piece_of_fen_char('K') == Some((Piece::King, Color::White)),
        piece_of_fen_char('p') == Some((Piece::Pawn, Color::Black)),
        piece_of_fen_char('n') == Some((Piece::Knight, Color::Black)),
        piece_of_fen_char('b') == Some((Piece::Bishop, Color::Black)),
        piece_of_fen_char('r') == Some((Piece::Rook, Color::Black)),
        piece_of_fen_char('q') == Some((Piece::Queen, Color::Black)),
        piece_of_fen_char('k') == Some((Piece::King, Color::Black)),
        forall|c: char|
            !(c == 'P' || c == 'N' || c == 'B' || c == 'R' || c == 'Q' || c == 'K' || c == 'p'
                || c == 'n' || c == 'b' || c == 'r' || c == 'q' || c == 'k') ==> piece_of_fen_char(
                c,
            ) is None,
        forall|p: Piece, c: Color| piece_of_fen_char(#[trigger] fen_char_of(p, c)) == Some((p, c)),
        Color::from_letter('w') == Some(Color::White),
        Color::from_letter('b') == Some(Color::Black),
        forall|c: char| c != 'w' && c != 'b' ==> Color::from_letter(c) is None,
        Color::White.letter() == 'w',
        Color::Black.letter() == 'b',
{
    assert forall|p: Piece, c: Color| piece_of_fen_char(#[trigger] fen_char_of(p, c)) == Some(
        (p, c),
    ) by {
        lemma_fen_char(p, c);
    }
}

/// How many squares the first `i` characters of a rank text cover: a digit
/// covers that many, any other character one.
pub open spec fn squares_before(t: Seq<char>, i: int) -> int
    decreases i,
{
    if i <= 0 || t.len() == 0 {
        0
    } else {
        (if is_digit(t[0]) {
            t[0] as int - 48
        } else {
            1
        }) + squares_before(t.drop_first(), i - 1)
    }
}

/// Reading the rest of a rank puts each letter's piece, and each digit's
/// empty squares, right after the squares the characters before it cover.
proof fn lemma_rank_scan(rest: Seq<char>, acc: Seq<Option<(Piece, Color)>>, rank: Seq<char>)
    requires
        rank_cells_from(rest, acc, rank) is Ok,
    ensures
        ({
            let full = rank_cells_from(rest, acc, rank)->Ok_0;
            &&& full.len() == acc.len() + squares_before(rest, rest.len() as int)
            &&& full.len() >= acc.len()
            &&& full.subrange(0, acc.len() as int) == acc
            &&& forall|i: int|
                0 <= i < rest.len() && !is_digit(rest[i]) ==> full[acc.len()
                    + #[trigger] squares_before(rest, i)] == piece_of_fen_char(rest[i])
            &&& forall|i: int|
                0 <= i < rest.len() && is_digit(rest[i]) ==> full.subrange(
                    acc.len() + #[trigger] squares_before(rest, i),
                    acc.len() + squares_before(rest, i) + (rest[i] as int - 48),
                ) == empty_cells((rest[i] as int - 48) as nat)
        }),
    decreases rest.len(),
{
    let full = rank_cells_from(rest, acc, rank)->Ok_0;
    if rest.len() == 0 {
        assert(full.subrange(0, acc.len() as int) =~= acc);
    } else {
        let c = rest[0];
        let tail = rest.drop_first();
        let n = acc.len() as int;
        let acc2 = if is_digit(c) {
            acc + empty_cells(digit_value(c))
        } else {
            acc.push(piece_of_fen_char(c))
        };
        assert(rank_cells_from(tail, acc2, rank) == rank_cells_from(rest, acc, rank));
        lemma_rank_scan(tail, acc2, rank);
        let w: int = if is_digit(c) { c as int - 48 } else { 1 };
        assert(acc2.len() == n + w);
        assert(squares_before(rest, rest.len() as int) == w + squares_before(tail, tail.len() as int));
        assert(full.subrange(0, n) =~= full.subrange(0, n + w).subrange(0, n));
        assert(acc2.subrange(0, n) =~= acc);
        assert forall|i: int|
            0 <= i < rest.len() && !is_digit(rest[i]) implies full[n
                + #[trigger] squares_before(rest, i)] == piece_of_fen_char(rest[i]) by {
            if i == 0 {
                assert(squares_before(rest, 0) == 0);
                assert(full[n] == full.subrange(0, n + w)[n]);
            } else {
                assert(squares_before(rest, i) == w + squares_before(tail, i - 1));
                assert(tail[i - 1] == rest[i]);
            }
        }
        assert forall|i: int|
            0 <= i < rest.len() && is_digit(rest[i]) implies full.subrange(
                n + #[trigger] squares_before(rest, i),
                n + squares_before(rest, i) + (rest[i] as int - 48),
            ) == empty_cells((rest[i] as int - 48) as nat) by {
            if i == 0 {
                assert(squares_before(rest, 0) == 0);
                assert(full.subrange(n, n + w) =~= full.subrange(0, n + w).subrange(n, n + w));
                assert(acc2.subrange(n, n + w) =~= empty_cells((c as int - 48) as nat));
            } else {
                assert(squares_before(rest, i) == w + squares_before(tail, i - 1));
                assert(tail[i - 1] == rest[i]);
            }
        }
    }
}

/// The eight squares a rank text describes, from file a: each piece letter
/// fills the square after those the characters before it cover, each digit
/// leaves that many squares empty, and together they cover exactly eight.
pub proof fn lemma_rank_squares(t: Seq<char>)
    requires
        rank_cells(t) is Ok,
    ensures
        ({
            let cells = rank_cells(t)->Ok_0;
            &&& cells.len() == 8
            &&& squares_before(t, t.len() as int) == 8
            &&& forall|i: int|
                0 <= i < t.len() && !is_digit(t[i]) ==> cells[#[trigger] squares_before(t, i)]
                    == piece_of_fen_char(t[i])
            &&& forall|i: int|
                0 <= i < t.len() && is_digit(t[i]) ==> cells.subrange(
                    #[trigger] squares_before(t, i),
                    squares_before(t, i) + (t[i] as int - 48),
                ) == empty_cells((t[i] as int - 48) as nat)
        }),
{
    let empty = Seq::<Option<(Piece, Color)>>::empty();
    lemma_rank_scan(t, empty, t);
}

/// The square at index `rank * 8 + file` holds what the placement field
/// lists at that file of that rank, the field listing rank 8 first.
pub proof fn lemma_placement_squares(field: Seq<char>)
    requires
        placement_of(field) is Ok,
    ensures
        forall|r: int, f: int|
            0 <= r < 8 && 0 <= f < 8 ==> #[trigger] placement_of(field)->Ok_0[r * 8 + f]
                == rank_cells(pieces(field, '/')[7 - r])->Ok_0[f],
{
    let ranks = pieces(field, '/');
    let rows = rows_of(ranks)->Ok_0;
    lemma_rows_of_parts(ranks);
    assert forall|r: int, f: int| 0 <= r < 8 && 0 <= f < 8 implies #[trigger] placement_of(
        field,
    )->Ok_0[r * 8 + f] == rank_cells(ranks[7 - r])->Ok_0[f] by {
        let k = r * 8 + f;
        assert(k / 8 == r && k % 8 == f) by (nonlinear_arith)
            requires
                k == r * 8 + f,
                0 <= f < 8,
                0 <= r,
        ;
        assert(0 <= k < 64) by (nonlinear_arith)
            requires
                k == r * 8 + f,
                0 <= f < 8,
                0 <= r < 8,
        ;
    }
}

/// A sequence holds `x` exactly when its first element is `x` or the rest holds it.
proof fn lemma_contains_front(s: Seq<char>, x: char)
    requires
        s.len() > 0,
    ensures
        s.contains(x) == (s[0] == x || s.drop_first().contains(x)),
{
    let t = s.drop_first();
    if s.contains(x) {
        let i = choose|i: int| 0 <= i < s.len() && s[i] == x;
        if i > 0 {
            assert(t[i - 1] == x);
        }
    }
    if t.contains(x) {
        let i = choose|i: int| 0 <= i < t.len() && t[i] == x;
        assert(s[i + 1] == x);
    }
    if s[0] == x {
        assert(s.contains(x));
    }
}

/// Castling letters read after some rights give those rights and the right
/// of each letter read.
proof fn lemma_castling_scan(rest: Seq<char>, r: CastlingRights, field: Seq<char>)
    requires
        castling_from(rest, r, field) is Ok,
    ensures
        ({
            let c = castling_from(rest, r, field)->Ok_0;
            &&& c.white_kingside == (r.white_kingside || rest.contains('K'))
            &&& c.white_queenside == (r.white_queenside || rest.contains('Q'))
            &&& c.black_kingside == (r.black_kingside || rest.contains('k'))
            &&& c.black_queenside == (r.black_queenside || rest.contains('q'))
        }),
    decreases rest.len(),
{
    if rest.len() > 0 {
        let ch = rest[0];
        let r2 = if ch == 'K' {
            CastlingRights { white_kingside: true, ..r }
        } else if ch == 'Q' {
            CastlingRights { white_queenside: true, ..r }
        } else if ch == 'k' {
            CastlingRights { black_kingside: true, ..r }
        } else {
            CastlingRights { black_queenside: true, ..r }
        };
        assert(castling_from(rest, r, field) == castling_from(rest.drop_first(), r2, field));
        lemma_castling_scan(rest.drop_first(), r2, field);
        lemma_contains_front(rest, 'K');
        lemma_contains_front(rest, 'Q');
        lemma_contains_front(rest, 'k');
        lemma_contains_front(rest, 'q');
    }
}

/// A castling field gives white the kingside right exactly when it holds
/// `K`, the queenside right when it holds `Q`, and black the same rights
/// for `k` and `q`; `-` gives none.
pub proof fn lemma_castling_field(f: Seq<char>)
    requires
        castling_of(f) is Ok,
    ensures
        ({
            let c = castling_of(f)->Ok_0;
            &&& c.white_kingside == f.contains('K')
            &&& c.white_queenside == f.contains('Q')
            &&& c.black_kingside == f.contains('k')
            &&& c.black_queenside == f.contains('q')
        }),
{
    if f == seq!['-'] {
        lemma_contains_front(f, 'K');
        lemma_contains_front(f, 'Q');
        lemma_contains_front(f, 'k');
        lemma_contains_front(f, 'q');
        assert(f.drop_first().len() == 0);
    } else {
        lemma_castling_scan(f, no_castling(), f);
    }
}

/// What the six fields of an accepted FEN text give: the placement field
/// the squares, `w` or `b` the side to move, the castling letters the
/// castling rights, `-` or a coordinate the en passant square (file counted
/// from `a`, rank from `1`), and the two numbers the clocks.
pub proof fn lemma_fen_fields(s: Seq<char>)
    requires
        fen_result(s) is Ok,
    ensures
        ({
            let b = fen_result(s)->Ok_0;
            let w = words(s);
            &&& w.len() == 6
            &&& placement_of(w[0]) == Ok::<Seq<Option<(Piece, Color)>>, FenErrorView>(b.squares)
            &&& (w[1] == seq!['w'] && b.side_to_move == Color::White) || (w[1] == seq!['b']
                && b.side_to_move == Color::Black)
            &&& b.castling.white_kingside == w[2].contains('K')
            &&& b.castling.white_queenside == w[2].contains('Q')
            &&& b.castling.black_kingside == w[2].contains('k')
            &&& b.castling.black_queenside == w[2].contains('q')
            &&& (w[3] == seq!['-'] && b.en_passant is None) || (w[3].len() == 2 && 'a' <= w[3][0]
                <= 'h' && '1' <= w[3][1] <= '8' && b.en_passant == Some(
                Square { file: (w[3][0] as int - 97) as u8, rank: (w[3][1] as int - 49) as u8 },
            ))
            &&& u32_of_text(w[4]) == Some(b.halfmove_clock)
            &&& u32_of_text(w[5]) == Some(b.fullmove_number)
        }),
{
    let w = words(s);
    lemma_castling_field(w[2]);
    if w[1][0] == 'w' {
        assert(w[1] =~= seq!['w']);
    } else {
        assert(w[1] =~= seq!['b']);
    }
}

/// The placement field written for 64 squares lists the ranks from rank 8
/// down, rank `r` written from the squares `r * 8` to `r * 8 + 7`.
pub proof fn lemma_placement_text_ranks(sq: Seq<Option<(Piece, Color)>>)
    requires
        sq.len() == 64,
    ensures
        pieces(placement_text(sq), '/').len() == 8,
        forall|r: int|
            0 <= r < 8 ==> #[trigger] pieces(placement_text(sq), '/')[7 - r] == row_text_from(
                sq.subrange(r * 8, r * 8 + 8),
                0,
            ),
{
    lemma_ranks_split(sq, 8);
}

/// A row of pieces is written as their letters, one per square.
pub proof fn lemma_row_of_pieces_text(cells: Seq<Option<(Piece, Color)>>)
    requires
        forall|i: int| 0 <= i < cells.len() ==> (#[trigger] cells[i]) is Some,
    ensures
        row_text_from(cells, 0).len() == cells.len(),
        forall|i: int|
            0 <= i < cells.len() ==> match cells[i] {
                Some((p, c)) => #[trigger] row_text_from(cells, 0)[i] == fen_char_of(p, c),
                None => false,
            },
    decreases cells.len(),
{
    if cells.len() > 0 {
        let tail = cells.drop_first();
        assert forall|i: int| 0 <= i < tail.len() implies (#[trigger] tail[i]) is Some by {
            assert(tail[i] == cells[i + 1]);
        }
        lemma_row_of_pieces_text(tail);
        let t = row_text_from(cells, 0);
        assert(run_text(0) =~= Seq::<char>::empty());
        assert forall|i: int| 0 <= i < cells.len() implies match cells[i] {
            Some((p, c)) => #[trigger] t[i] == fen_char_of(p, c),
            None => false,
        } by {
            if i > 0 {
                assert(tail[i - 1] == cells[i]);
            }
        }
    }
}

/// What is written for each field of a position: the ranks from rank 8
/// down, `w` or `b`, `-` for no castling rights or the letters of the
/// rights held, `-` or the en passant square's file letter and rank digit,
/// and the two clocks in decimal.
pub proof fn lemma_written_fields(b: BoardView)
    requires
        b.well_formed(),
    ensures
        ({
            let w = words(board_text(b));
            &&& w.len() == 6
            &&& forall|r: int|
                0 <= r < 8 ==> #[trigger] pieces(w[0], '/')[7 - r] == row_text_from(
                    b.squares.subrange(r * 8, r * 8 + 8),
                    0,
                )
            &&& b.side_to_move == Color::White ==> w[1] == seq!['w']
            &&& b.side_to_move == Color::Black ==> w[1] == seq!['b']
            &&& w[2] == seq!['-'] <==> !b.castling.white_kingside && !b.castling.white_queenside
                && !b.castling.black_kingside && !b.castling.black_queenside
            &&& b.castling.white_kingside == w[2].contains('K')
            &&& b.castling.white_queenside == w[2].contains('Q')
            &&& b.castling.black_kingside == w[2].contains('k')
            &&& b.castling.black_queenside == w[2].contains('q')
            &&& b.en_passant is None ==> w[3] == seq!['-']
            &&& (b.en_passant matches Some(sq) ==> w[3].len() == 2 && w[3][0] as int == 97
                + sq.file && w[3][1] as int == 49 + sq.rank)
            &&& u32_of_text(w[4]) == Some(b.halfmove_clock)
            &&& u32_of_text(w[5]) == Some(b.fullmove_number)
        }),
{
    lemma_board_words(b);
    lemma_placement_text_ranks(b.squares);
    lemma_castling_reads_back(b.castling);
    lemma_castling_field(castling_text(b.castling));
    lemma_u32_of_decimal_text(b.halfmove_clock);
    lemma_u32_of_decimal_text(b.fullmove_number);
    if let Some(sq) = b.en_passant {
        lemma_square_chars(sq);
    }
    if castling_text(b.castling) == seq!['-'] {
        assert(castling_text(b.castling).contains('-'));
    }
}

/// `O-O` (or `0-0`) is the kingside castle and `O-O-O` (or `0-0-0`) the
/// queenside castle, both moves of the king; a castle is written with
/// letters `O`, followed by its suffix.
pub proof fn lemma_castle_texts(check: bool, checkmate: bool)
    ensures
        san_result(seq!['O', '-', 'O']) == Ok::<SanMove, ParseErrorView>(
            SanMove {
                piece: Piece::King,
                from_file: None,
                from_rank: None,
                capture: false,
                to: None,
                promotion: None,
                check: false,
                checkmate: false,
                castle: Some(CastleSide::Kingside),
            },
        ),
        san_result(seq!['0', '-', '0']) == san_result(seq!['O', '-', 'O']),
        san_result(seq!['O', '-', 'O', '-', 'O']) == Ok::<SanMove, ParseErrorView>(
            SanMove {
                piece: Piece::King,
                from_file: None,
                from_rank: None,
                capture: false,
                to: None,
                promotion: None,
                check: false,
                checkmate: false,
                castle: Some(CastleSide::Queenside),
            },
        ),
        san_result(seq!['0', '-', '0', '-', '0']) == san_result(seq!['O', '-', 'O', '-', 'O']),
        ({
            let m = SanMove {
                piece: Piece::King,
                from_file: None,
                from_rank: None,
                capture: false,
                to: None,
                promotion: None,
                check,
                checkmate,
                castle: Some(CastleSide::Kingside),
            };
            let suffix = if checkmate {
                seq!['#']
            } else if check {
                seq!['+']
            } else {
                seq![]
            };
            &&& m.text() == seq!['O', '-', 'O'] + suffix
            &&& SanMove { castle: Some(CastleSide::Queenside), ..m }.text() == seq![
                'O',
                '-',
                'O',
                '-',
                'O',
            ] + suffix
        }),
{
}

/// A `+` after a move's text marks it as check, a `#` as checkmate; the
/// rest of the move is read as before.
pub proof fn lemma_read_suffix(s: Seq<char>)
    requires
        san_result(s) is Ok,
        !san_result(s)->Ok_0.check,
        !san_result(s)->Ok_0.checkmate,
    ensures
        san_result(s.push('+')) == Ok::<SanMove, ParseErrorView>(
            SanMove { check: true, ..san_result(s)->Ok_0 },
        ),
        san_result(s.push('#')) == Ok::<SanMove, ParseErrorView>(
            SanMove { checkmate: true, ..san_result(s)->Ok_0 },
        ),
{
    reveal(move_of_body);
    assert(s.push('+').drop_last() =~= s);
    assert(s.push('#').drop_last() =~= s);
}

/// The errors a move text is refused with: `Empty` for no text, the letter
/// for a capital letter that names no piece (outside a castle), the two characters before the
/// promotion for a destination that is not a square, the letter after `=`
/// for a promotion to a pawn, a king or no piece, and `TooShort` for a piece
/// letter with no room for a square.
pub proof fn lemma_move_errors(c: char, a: char, d: char)
    requires
        d != '+' && d != '#',
    ensures
        san_result(seq![]) == Err::<SanMove, ParseErrorView>(ParseErrorView::Empty),
        'A' <= c <= 'Z' && !(c == 'N' || c == 'B' || c == 'R' || c == 'Q' || c == 'K') && a
            != '-' ==> san_result(seq![c, a, d]) == Err::<SanMove, ParseErrorView>(
            ParseErrorView::UnknownPiece(c),
        ),
        a != '=' && !('a' <= a <= 'h' && '1' <= d <= '8') ==> san_result(seq!['N', a, d])
            == Err::<SanMove, ParseErrorView>(ParseErrorView::BadSquare(seq![a, d])),
        !(d == 'N' || d == 'B' || d == 'R' || d == 'Q') ==> san_result(seq!['e', '8', '=', d])
            == Err::<SanMove, ParseErrorView>(ParseErrorView::BadPromotion(d)),
        a != '+' && a != '#' && a != '=' ==> san_result(seq!['N', a])
            == Err::<SanMove, ParseErrorView>(ParseErrorView::TooShort),
{
    reveal(move_of_body);
    let t = seq!['N', a, d];
    assert(t.subrange(1, 3) =~= seq![a, d]);
    assert(seq!['N', a].len() == 2);
}

/// A number field is an optional `+` and then decimal digits, each digit
/// worth its distance from `0`, read most significant first, and refused
/// once the value passes `u32::MAX`; an empty field is refused.
pub proof fn lemma_number_digits(t: Seq<char>, c: char)
    requires
        t.len() > 0,
        forall|i: int| 0 <= i < t.len() ==> '0' <= #[trigger] t[i] <= '9',
        '0' <= c <= '9',
    ensures
        u32_of_text(seq![]) is None,
        u32_of_text(seq![c]) == Some((c as int - 48) as u32),
        u32_of_text(t.push(c)) == (match u32_of_text(t) {
            Some(v) => if v * 10 + (c as int - 48) <= 0xffff_ffff {
                Some((v * 10 + (c as int - 48)) as u32)
            } else {
                None::<u32>
            },
            None => None,
        }),
        u32_of_text(seq!['+'] + t) == u32_of_text(t),
{
    let u = t.push(c);
    assert(u.drop_last() =~= t);
    assert(all_digits(t));
    assert(all_digits(u)) by {
        assert forall|i: int| 0 <= i < u.len() implies is_digit(#[trigger] u[i]) by {
            if i < t.len() {
                assert(u[i] == t[i]);
            }
        }
    }
    assert(u[0] == t[0]);
    assert(unsigned_digits(u) == u);
    assert(unsigned_digits(t) == t);
    assert((seq!['+'] + t).drop_first() =~= t);
    let one = seq![c];
    assert(one.drop_last() =~= Seq::<char>::empty());
    assert(digits_value(Seq::<char>::empty()) == 0);
    assert(all_digits(one));
    let v = digits_value(t);
    assert(v * 10 >= v) by (nonlinear_arith);
}

} // verus!
