//! Writing a position in FEN and reading the text back gives the position.

use vstd::prelude::*;

use crate::fen::{
    board_text, castling_from, castling_of, castling_text, empty_cells, en_passant_text,
    fen_char_of, fen_result, lemma_fen_char, lemma_parsed_board_well_formed, no_castling,
    piece_of_fen_char, placement_of, placement_text, rank_cells, rank_cells_from, rank_row,
    ranks_text, row_text_from, rows_of, run_text, squares_of_rows, BoardView, CastlingRights,
    Color, FenErrorView,
};
use crate::san::{lemma_square_text, Piece};
use crate::text::{
    all_digits, decimal_text, digit_char, digit_value, free_of, is_digit, is_white_space,
    lemma_decimal_text, lemma_digit_char, lemma_pieces_last, lemma_pieces_split,
    lemma_u32_of_decimal_text, lemma_words_last, lemma_words_split, no_white_space,
    pieces_from, words, words_from,
};

verus! {

/// A character that may stand in a rank of the placement field.
pub open spec fn placement_char(c: char) -> bool {
    is_digit(c) || piece_of_fen_char(c) is Some
}

pub open spec fn all_placement_chars(t: Seq<char>) -> bool {
    forall|i: int| 0 <= i < t.len() ==> placement_char(#[trigger] t[i])
}

proof fn lemma_run_text(run: nat)
    requires
        1 <= run <= 8,
    ensures
        run_text(run) == seq![digit_char(run)],
        is_digit(digit_char(run)),
        digit_value(digit_char(run)) == run,
{
    lemma_digit_char(run);
}

/// The text of a rank holds only digits and piece letters, and is not empty
/// unless there is nothing to write.
proof fn lemma_row_text_chars(cells: Seq<Option<(Piece, Color)>>, run: nat)
    requires
        run + cells.len() <= 8,
    ensures
        all_placement_chars(row_text_from(cells, run)),
        run + cells.len() > 0 ==> row_text_from(cells, run).len() > 0,
    decreases cells.len(),
{
    if run > 0 {
        lemma_run_text(run);
    }
    let rt = run_text(run);
    assert(all_placement_chars(rt));
    if cells.len() > 0 {
        match cells[0] {
            None => {
                lemma_row_text_chars(cells.drop_first(), run + 1);
            },
            Some((p, c)) => {
                lemma_row_text_chars(cells.drop_first(), 0);
                lemma_fen_char(p, c);
                let t = rt + seq![fen_char_of(p, c)] + row_text_from(cells.drop_first(), 0);
                assert forall|i: int| 0 <= i < t.len() implies placement_char(#[trigger] t[i]) by {
                    if i < rt.len() {
                        assert(t[i] == rt[i]);
                    } else if i > rt.len() {
                        assert(t[i] == row_text_from(cells.drop_first(), 0)[i - rt.len() - 1]);
                    }
                }
            },
        }
    }
}

/// Reading the text of a rank gives back its squares.
proof fn lemma_row_reads_back(
    cells: Seq<Option<(Piece, Color)>>,
    run: nat,
    row: Seq<Option<(Piece, Color)>>,
    rank: Seq<char>,
)
    requires
        row.len() + run + cells.len() == 8,
    ensures
        rank_cells_from(row_text_from(cells, run), row, rank) == Ok::<
            Seq<Option<(Piece, Color)>>,
            FenErrorView,
        >(row + empty_cells(run) + cells),
    decreases cells.len(),
{
    let empty = Seq::<char>::empty();
    if cells.len() == 0 {
        if run > 0 {
            lemma_run_text(run);
            let t = seq![digit_char(run)];
            assert(t.drop_first() =~= empty);
            assert(rank_cells_from(empty, row + empty_cells(run), rank) == Ok::<
                Seq<Option<(Piece, Color)>>,
                FenErrorView,
            >(row + empty_cells(run)));
        } else {
            assert(run_text(run) =~= empty);
            assert(empty_cells(0) =~= Seq::<Option<(Piece, Color)>>::empty());
        }
        assert(row + empty_cells(run) + cells =~= row + empty_cells(run));
    } else {
        let rest = cells.drop_first();
        match cells[0] {
            None => {
                lemma_row_reads_back(rest, run + 1, row, rank);
                assert(row + empty_cells(run + 1) + rest =~= row + empty_cells(run) + cells);
            },
            Some((p, c)) => {
                let ch = fen_char_of(p, c);
                lemma_fen_char(p, c);
                let row1 = row + empty_cells(run);
                let row2 = row1.push(Some((p, c)));
                lemma_row_reads_back(rest, 0, row2, rank);
                let tail = seq![ch] + row_text_from(rest, 0);
                // Reading the piece letter.
                assert(tail[0] == ch);
                assert(tail.drop_first() =~= row_text_from(rest, 0));
                assert(!is_digit(ch));
                assert(rank_cells_from(tail, row1, rank) == rank_cells_from(
                    row_text_from(rest, 0),
                    row2,
                    rank,
                ));
                // Reading the run count before it.
                if run > 0 {
                    lemma_run_text(run);
                    let t = seq![digit_char(run)] + tail;
                    assert(t[0] == digit_char(run));
                    assert(t.drop_first() =~= tail);
                    assert(row_text_from(cells, run) =~= t);
                } else {
                    assert(row1 =~= row);
                    assert(row_text_from(cells, run) =~= tail);
                }
                assert(row2 + empty_cells(0) + rest =~= row + empty_cells(run) + cells);
            },
        }
    }
}

/// The text of a full rank reads back as its eight squares.
pub proof fn lemma_rank_reads_back(cells: Seq<Option<(Piece, Color)>>)
    requires
        cells.len() == 8,
    ensures
        rank_cells(row_text_from(cells, 0)) == Ok::<
            Seq<Option<(Piece, Color)>>,
            FenErrorView,
        >(cells),
{
    let t = row_text_from(cells, 0);
    lemma_row_reads_back(cells, 0, seq![], t);
    assert(Seq::<Option<(Piece, Color)>>::empty() + empty_cells(0) + cells =~= cells);
}


/// The rank texts of the lowest `n` ranks, from rank `n` down to rank 1.
pub open spec fn rank_texts(squares: Seq<Option<(Piece, Color)>>, n: int) -> Seq<Seq<char>> {
    Seq::new(n as nat, |i: int| row_text_from(rank_row(squares, n - 1 - i), 0))
}

proof fn lemma_rank_text_free(squares: Seq<Option<(Piece, Color)>>, r: int)
    requires
        squares.len() == 64,
        0 <= r < 8,
    ensures
        free_of(row_text_from(rank_row(squares, r), 0), '/'),
        row_text_from(rank_row(squares, r), 0).len() > 0,
        all_placement_chars(row_text_from(rank_row(squares, r), 0)),
{
    lemma_row_text_chars(rank_row(squares, r), 0);
    let t = row_text_from(rank_row(squares, r), 0);
    assert forall|i: int| 0 <= i < t.len() implies #[trigger] t[i] != '/' by {
        assert(placement_char(t[i]));
    }
}

/// The placement text splits at `/` into the texts of the ranks.
pub proof fn lemma_ranks_split(squares: Seq<Option<(Piece, Color)>>, n: int)
    requires
        squares.len() == 64,
        1 <= n <= 8,
    ensures
        pieces_from(ranks_text(squares, n), '/', seq![]) == rank_texts(squares, n),
    decreases n,
{
    let empty = Seq::<char>::empty();
    let row = row_text_from(rank_row(squares, n - 1), 0);
    lemma_rank_text_free(squares, n - 1);
    if n == 1 {
        lemma_pieces_last(row, '/', empty);
        assert(empty + row =~= row);
        assert(rank_texts(squares, 1) =~= seq![row]);
    } else {
        lemma_pieces_split(row, '/', ranks_text(squares, n - 1), empty);
        lemma_ranks_split(squares, n - 1);
        assert(empty + row =~= row);
        assert(rank_texts(squares, n) =~= seq![row] + rank_texts(squares, n - 1));
    }
}

/// Reading the first `m` rank texts gives the first `m` rows.
proof fn lemma_rows_read_back(squares: Seq<Option<(Piece, Color)>>, m: int)
    requires
        squares.len() == 64,
        0 <= m <= 8,
    ensures
        rows_of(rank_texts(squares, 8).take(m)) == Ok::<
            Seq<Seq<Option<(Piece, Color)>>>,
            FenErrorView,
        >(Seq::new(m as nat, |i: int| rank_row(squares, 7 - i))),
    decreases m,
{
    let ranks = rank_texts(squares, 8);
    if m == 0 {
        assert(ranks.take(0) =~= Seq::<Seq<char>>::empty());
        assert(Seq::new(0, |i: int| rank_row(squares, 7 - i)) =~= Seq::<
            Seq<Option<(Piece, Color)>>,
        >::empty());
    } else {
        lemma_rows_read_back(squares, m - 1);
        assert(ranks.take(m).drop_last() =~= ranks.take(m - 1));
        assert(ranks.take(m).last() == row_text_from(rank_row(squares, 7 - (m - 1)), 0));
        lemma_rank_reads_back(rank_row(squares, 7 - (m - 1)));
        assert(Seq::new((m - 1) as nat, |i: int| rank_row(squares, 7 - i)).push(
            rank_row(squares, 7 - (m - 1)),
        ) =~= Seq::new(m as nat, |i: int| rank_row(squares, 7 - i)));
    }
}

/// Putting the rows back in place gives the squares.
proof fn lemma_squares_of_rows(squares: Seq<Option<(Piece, Color)>>)
    requires
        squares.len() == 64,
    ensures
        squares_of_rows(Seq::new(8, |i: int| rank_row(squares, 7 - i))) == squares,
{
    let rows = Seq::new(8, |i: int| rank_row(squares, 7 - i));
    assert forall|k: int| 0 <= k < 64 implies #[trigger] squares_of_rows(rows)[k] == squares[k] by {
        let r = k / 8;
        let f = k % 8;
        assert(0 <= r < 8 && 0 <= f < 8 && r * 8 + f == k);
        assert(rows[7 - r] == rank_row(squares, r));
    }
    assert(squares_of_rows(rows) =~= squares);
}

/// The placement text of 64 squares reads back as the squares.
pub proof fn lemma_placement_reads_back(squares: Seq<Option<(Piece, Color)>>)
    requires
        squares.len() == 64,
    ensures
        placement_of(placement_text(squares)) == Ok::<Seq<Option<(Piece, Color)>>, FenErrorView>(
            squares,
        ),
{
    lemma_ranks_split(squares, 8);
    lemma_rows_read_back(squares, 8);
    assert(rank_texts(squares, 8).take(8) =~= rank_texts(squares, 8));
    lemma_squares_of_rows(squares);
}


/// Reading one castling letter on top of the rights `r`.
proof fn lemma_castling_step(
    ch: char,
    rest: Seq<char>,
    r: CastlingRights,
    r2: CastlingRights,
    field: Seq<char>,
)
    requires
        (ch == 'K' && !r.white_kingside && r2 == CastlingRights { white_kingside: true, ..r })
            || (ch == 'Q' && !r.white_queenside && r2 == CastlingRights {
            white_queenside: true,
            ..r
        }) || (ch == 'k' && !r.black_kingside && r2 == CastlingRights {
            black_kingside: true,
            ..r
        }) || (ch == 'q' && !r.black_queenside && r2 == CastlingRights {
            black_queenside: true,
            ..r
        }),
    ensures
        castling_from(seq![ch] + rest, r, field) == castling_from(rest, r2, field),
{
    let t = seq![ch] + rest;
    assert(t[0] == ch);
    assert(t.drop_first() =~= rest);
}

/// The castling field reads back as the rights it was written for.
pub proof fn lemma_castling_reads_back(c: CastlingRights)
    ensures
        castling_of(castling_text(c)) == Ok::<CastlingRights, FenErrorView>(c),
{
    if c != no_castling() {
        let t = castling_text(c);
        let f = t;
        let empty = Seq::<char>::empty();
        let tk = if c.white_kingside { seq!['K'] } else { empty };
        let tq = if c.white_queenside { seq!['Q'] } else { empty };
        let bk = if c.black_kingside { seq!['k'] } else { empty };
        let bq = if c.black_queenside { seq!['q'] } else { empty };
        assert(t == tk + tq + bk + bq);
        let r0 = no_castling();
        let r1 = CastlingRights { white_kingside: c.white_kingside, ..r0 };
        let r2 = CastlingRights { white_queenside: c.white_queenside, ..r1 };
        let r3 = CastlingRights { black_kingside: c.black_kingside, ..r2 };
        assert(r3.black_queenside == false);
        // The last letter.
        if c.black_queenside {
            lemma_castling_step('q', empty, r3, c, f);
            assert(bq =~= seq!['q'] + empty);
        } else {
            assert(r3 == c);
            assert(bq =~= empty);
        }
        assert(castling_from(bq, r3, f) == Ok::<CastlingRights, FenErrorView>(c));
        if c.black_kingside {
            lemma_castling_step('k', bq, r2, r3, f);
            assert(bk + bq =~= seq!['k'] + bq);
        } else {
            assert(bk + bq =~= bq);
        }
        assert(castling_from(bk + bq, r2, f) == Ok::<CastlingRights, FenErrorView>(c));
        if c.white_queenside {
            lemma_castling_step('Q', bk + bq, r1, r2, f);
            assert(tq + bk + bq =~= seq!['Q'] + (bk + bq));
        } else {
            assert(tq + bk + bq =~= bk + bq);
        }
        assert(castling_from(tq + bk + bq, r1, f) == Ok::<CastlingRights, FenErrorView>(c));
        if c.white_kingside {
            lemma_castling_step('K', tq + bk + bq, r0, r1, f);
            assert(tk + tq + bk + bq =~= seq!['K'] + (tq + bk + bq));
        } else {
            assert(tk + tq + bk + bq =~= tq + bk + bq);
        }
        assert(castling_from(t, r0, f) == Ok::<CastlingRights, FenErrorView>(c));
        assert(t != seq!['-']) by {
            if t == seq!['-'] {
                assert(t.len() == 1);
                assert(t[0] == '-');
                if c.white_kingside {
                    assert(t[0] == 'K');
                } else if c.white_queenside {
                    assert(t[0] == 'Q');
                } else if c.black_kingside {
                    assert(t[0] == 'k');
                } else {
                    assert(t[0] == 'q');
                }
            }
        }
    }
}


/// The placement text holds no white space and is not empty.
proof fn lemma_ranks_text_no_space(squares: Seq<Option<(Piece, Color)>>, n: int)
    requires
        squares.len() == 64,
        1 <= n <= 8,
    ensures
        no_white_space(ranks_text(squares, n)),
        ranks_text(squares, n).len() > 0,
    decreases n,
{
    let row = row_text_from(rank_row(squares, n - 1), 0);
    lemma_rank_text_free(squares, n - 1);
    assert(no_white_space(row)) by {
        assert forall|i: int| 0 <= i < row.len() implies !is_white_space(#[trigger] row[i]) by {
            assert(placement_char(row[i]));
        }
    }
    if n > 1 {
        lemma_ranks_text_no_space(squares, n - 1);
        let rest = ranks_text(squares, n - 1);
        let t = row + seq!['/'] + rest;
        assert forall|i: int| 0 <= i < t.len() implies !is_white_space(#[trigger] t[i]) by {
            if i < row.len() {
                assert(t[i] == row[i]);
            } else if i > row.len() {
                assert(t[i] == rest[i - row.len() - 1]);
            }
        }
    }
}

proof fn lemma_digits_no_space(t: Seq<char>)
    requires
        all_digits(t),
    ensures
        no_white_space(t),
{
    assert forall|i: int| 0 <= i < t.len() implies !is_white_space(#[trigger] t[i]) by {
        assert(is_digit(t[i]));
    }
}

/// Six non-empty words joined by single spaces split back into the six words.
proof fn lemma_six_words(
    p: Seq<char>,
    sd: Seq<char>,
    c: Seq<char>,
    e: Seq<char>,
    h: Seq<char>,
    f: Seq<char>,
)
    requires
        no_white_space(p) && p.len() > 0,
        no_white_space(sd) && sd.len() > 0,
        no_white_space(c) && c.len() > 0,
        no_white_space(e) && e.len() > 0,
        no_white_space(h) && h.len() > 0,
        no_white_space(f) && f.len() > 0,
    ensures
        words(
            p + seq![' '] + sd + seq![' '] + c + seq![' '] + e + seq![' '] + h + seq![' '] + f,
        ) == seq![p, sd, c, e, h, f],
{
    let empty = Seq::<char>::empty();
    let sp = seq![' '];
    let r5 = f;
    let r4 = h + sp + r5;
    let r3 = e + sp + r4;
    let r2 = c + sp + r3;
    let r1 = sd + sp + r2;
    assert(p + sp + sd + sp + c + sp + e + sp + h + sp + f =~= p + sp + r1);
    lemma_words_split(p, ' ', r1, empty);
    lemma_words_split(sd, ' ', r2, empty);
    lemma_words_split(c, ' ', r3, empty);
    lemma_words_split(e, ' ', r4, empty);
    lemma_words_split(h, ' ', r5, empty);
    lemma_words_last(f, empty);
    assert(empty + p =~= p);
    assert(empty + sd =~= sd);
    assert(empty + c =~= c);
    assert(empty + e =~= e);
    assert(empty + h =~= h);
    assert(empty + f =~= f);
    assert(words_from(r5, empty) =~= seq![f]);
    assert(words_from(r4, empty) =~= seq![h, f]);
    assert(words_from(r3, empty) =~= seq![e, h, f]);
    assert(words_from(r2, empty) =~= seq![c, e, h, f]);
    assert(words_from(r1, empty) =~= seq![sd, c, e, h, f]);
}

/// Each field of a written position is a non-empty word.
proof fn lemma_board_fields(b: BoardView)
    requires
        b.well_formed(),
    ensures
        no_white_space(placement_text(b.squares)) && placement_text(b.squares).len() > 0,
        no_white_space(castling_text(b.castling)) && castling_text(b.castling).len() > 0,
        no_white_space(en_passant_text(b.en_passant)) && en_passant_text(b.en_passant).len() > 0,
        no_white_space(decimal_text(b.halfmove_clock as nat)) && decimal_text(
            b.halfmove_clock as nat,
        ).len() > 0,
        no_white_space(decimal_text(b.fullmove_number as nat)) && decimal_text(
            b.fullmove_number as nat,
        ).len() > 0,
{
    let c = castling_text(b.castling);
    let e = en_passant_text(b.en_passant);
    lemma_ranks_text_no_space(b.squares, 8);
    lemma_decimal_text(b.halfmove_clock as nat);
    lemma_decimal_text(b.fullmove_number as nat);
    lemma_digits_no_space(decimal_text(b.halfmove_clock as nat));
    lemma_digits_no_space(decimal_text(b.fullmove_number as nat));
    if b.castling != no_castling() {
        assert forall|i: int| 0 <= i < c.len() implies !is_white_space(#[trigger] c[i]) by {}
        assert(b.castling.white_kingside || b.castling.white_queenside
            || b.castling.black_kingside || b.castling.black_queenside);
    }
    if let Some(sq) = b.en_passant {
        lemma_square_text(sq);
        assert forall|i: int| 0 <= i < e.len() implies !is_white_space(#[trigger] e[i]) by {}
    }
}

/// The six fields of a written position are its words.
pub proof fn lemma_board_words(b: BoardView)
    requires
        b.well_formed(),
    ensures
        words(board_text(b)) == seq![
            placement_text(b.squares),
            seq![b.side_to_move.letter()],
            castling_text(b.castling),
            en_passant_text(b.en_passant),
            decimal_text(b.halfmove_clock as nat),
            decimal_text(b.fullmove_number as nat),
        ],
{
    lemma_board_fields(b);
    let sd = seq![b.side_to_move.letter()];
    assert(no_white_space(sd));
    lemma_six_words(
        placement_text(b.squares),
        sd,
        castling_text(b.castling),
        en_passant_text(b.en_passant),
        decimal_text(b.halfmove_clock as nat),
        decimal_text(b.fullmove_number as nat),
    );
}

/// Writing a well-formed position in FEN and parsing the text gives the
/// position back.
pub proof fn lemma_board_reads_back(b: BoardView)
    requires
        b.well_formed(),
    ensures
        fen_result(board_text(b)) == Ok::<BoardView, FenErrorView>(b),
{
    lemma_board_words(b);
    lemma_placement_reads_back(b.squares);
    lemma_castling_reads_back(b.castling);
    lemma_u32_of_decimal_text(b.halfmove_clock);
    lemma_u32_of_decimal_text(b.fullmove_number);
    let fields = words(board_text(b));
    let sd = seq![b.side_to_move.letter()];
    assert(fields[1] == sd);
    assert(sd[0] == b.side_to_move.letter());
    let e = en_passant_text(b.en_passant);
    assert(fields[3] == e);
    if let Some(sq) = b.en_passant {
        lemma_square_text(sq);
        assert(e != seq!['-']) by {
            assert(e.len() == 2);
        }
    }
}


/// Parsing is canonical: whatever a text parses to, writing that position
/// and parsing again gives the same position.
pub proof fn lemma_fen_reparse(s: Seq<char>)
    ensures
        fen_result(s) matches Ok(b) ==> fen_result(board_text(b)) == Ok::<BoardView, FenErrorView>(b),
{
    lemma_parsed_board_well_formed(s);
    if let Ok(b) = fen_result(s) {
        lemma_board_reads_back(b);
    }
}


} // verus!
