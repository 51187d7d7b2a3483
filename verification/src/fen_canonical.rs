//! Canonical FEN: what is written for a position is in canonical form, and a
//! text in canonical form is written back unchanged after parsing.

use vstd::prelude::*;

use crate::fen::{
    board_text, castling_from, castling_of, castling_text, empty_cells, en_passant_text,
    fen_char_of, fen_result, lemma_fen_char_named, no_castling, piece_of_fen_char, placement_of,
    placement_text, rank_cells, rank_cells_from, rank_row, ranks_text, row_text_from, rows_of,
    run_text, squares_of_rows, BoardView, CastlingRights, Color, FenErrorView,
};
use crate::fen_round_trip::{lemma_board_words, lemma_ranks_split, rank_texts};
use crate::san::{lemma_coord_text, Piece};
use crate::text::{
    all_digits, decimal_text, digit_char, digit_value, digits_value, is_digit, is_white_space,
    pieces, pieces_from, u32_of_text, unsigned_digits, words, words_from,
};

verus! {

/// A number written in plain decimal: no sign, and no leading zero unless it
/// is `0` itself.
pub open spec fn is_plain_number(t: Seq<char>) -> bool {
    t.len() > 0 && t[0] != '+' && (t.len() == 1 || t[0] != '0')
}

proof fn lemma_digit_of_value(c: char)
    requires
        is_digit(c),
    ensures
        digit_char(digit_value(c)) == c,
{
}

/// Plain decimal digits are the decimal text of their value.
proof fn lemma_plain_digits(t: Seq<char>)
    requires
        all_digits(t),
        t.len() > 0,
        t.len() == 1 || t[0] != '0',
    ensures
        decimal_text(digits_value(t)) == t,
    decreases t.len(),
{
    let v = digits_value(t);
    let c = t.last();
    assert(is_digit(t[t.len() - 1]));
    lemma_digit_of_value(c);
    if t.len() == 1 {
        assert(t.drop_last() =~= Seq::<char>::empty());
        assert(digits_value(Seq::<char>::empty()) == 0);
        assert(decimal_text(v) =~= t);
    } else {
        let u = t.drop_last();
        assert(all_digits(u)) by {
            assert forall|i: int| 0 <= i < u.len() implies is_digit(#[trigger] u[i]) by {
                assert(u[i] == t[i]);
            }
        }
        assert(u[0] == t[0]);
        lemma_plain_digits(u);
        let w = digits_value(u);
        assert(w >= 1) by {
            if u.len() == 1 {
                assert(u.drop_last() =~= Seq::<char>::empty());
                assert(digits_value(Seq::<char>::empty()) == 0);
                assert(u.last() == u[0]);
            } else {
                if w < 10 {
                    assert(decimal_text(w).len() == 1);
                }
            }
        }
        let d = digit_value(c);
        assert(v == w * 10 + d);
        assert(d < 10);
        assert(v / 10 == w && v % 10 == d) by (nonlinear_arith)
            requires
                v == w * 10 + d,
                d < 10,
        ;
        assert(decimal_text(v) == decimal_text(w).push(digit_char(d)));
        assert(u.push(c) =~= t);
    }
}

/// A number field in plain decimal is written back unchanged.
pub proof fn lemma_plain_number(t: Seq<char>)
    requires
        is_plain_number(t),
        u32_of_text(t) is Some,
    ensures
        decimal_text(u32_of_text(t)->0 as nat) == t,
{
    assert(unsigned_digits(t) == t);
    lemma_plain_digits(t);
}


/// Where a castling letter stands in the order `KQkq`.
pub open spec fn castle_order(ch: char) -> int {
    match ch {
        'K' => 0,
        'Q' => 1,
        'k' => 2,
        'q' => 3,
        _ => 4,
    }
}

/// A castling field that is `-`, or whose letters come in the order `KQkq`.
pub open spec fn is_castling_in_order(f: Seq<char>) -> bool {
    f == seq!['-'] || forall|i: int, j: int|
        0 <= i < j < f.len() ==> castle_order(#[trigger] f[i]) < castle_order(#[trigger] f[j])
}

/// The letters of the rights held, in the order `KQkq`.
pub open spec fn castle_letters(c: CastlingRights) -> Seq<char> {
    (if c.white_kingside {
        seq!['K']
    } else {
        seq![]
    }) + (if c.white_queenside {
        seq!['Q']
    } else {
        seq![]
    }) + (if c.black_kingside {
        seq!['k']
    } else {
        seq![]
    }) + (if c.black_queenside {
        seq!['q']
    } else {
        seq![]
    })
}

/// The place in the order `KQkq` of the last right held, or -1.
pub open spec fn highest_right(c: CastlingRights) -> int {
    if c.black_queenside {
        3
    } else if c.black_kingside {
        2
    } else if c.white_queenside {
        1
    } else if c.white_kingside {
        0
    } else {
        -1
    }
}

/// Castling letters read in order are the letters of the rights they give.
proof fn lemma_castling_letters(rest: Seq<char>, r: CastlingRights, field: Seq<char>)
    requires
        castling_from(rest, r, field) is Ok,
        forall|i: int, j: int|
            0 <= i < j < rest.len() ==> castle_order(#[trigger] rest[i]) < castle_order(
                #[trigger] rest[j],
            ),
        forall|i: int| 0 <= i < rest.len() ==> castle_order(#[trigger] rest[i]) > highest_right(r),
    ensures
        castle_letters(castling_from(rest, r, field)->Ok_0) == castle_letters(r) + rest,
    decreases rest.len(),
{
    if rest.len() == 0 {
        assert(castle_letters(r) + rest =~= castle_letters(r));
    } else {
        let ch = rest[0];
        let tail = rest.drop_first();
        let r2 = if ch == 'K' {
            CastlingRights { white_kingside: true, ..r }
        } else if ch == 'Q' {
            CastlingRights { white_queenside: true, ..r }
        } else if ch == 'k' {
            CastlingRights { black_kingside: true, ..r }
        } else {
            CastlingRights { black_queenside: true, ..r }
        };
        assert(castling_from(rest, r, field) == castling_from(tail, r2, field));
        assert(castle_letters(r2) =~= castle_letters(r).push(ch));
        assert forall|i: int, j: int| 0 <= i < j < tail.len() implies castle_order(
            #[trigger] tail[i],
        ) < castle_order(#[trigger] tail[j]) by {
            assert(tail[i] == rest[i + 1] && tail[j] == rest[j + 1]);
        }
        assert forall|i: int| 0 <= i < tail.len() implies castle_order(#[trigger] tail[i])
            > highest_right(r2) by {
            assert(tail[i] == rest[i + 1]);
            assert(castle_order(rest[0]) < castle_order(rest[i + 1]));
        }
        lemma_castling_letters(tail, r2, field);
        assert(castle_letters(r).push(ch) + tail =~= castle_letters(r) + rest);
    }
}

/// A castling field in order is written back unchanged.
pub proof fn lemma_castling_in_order(f: Seq<char>)
    requires
        is_castling_in_order(f),
        f.len() > 0,
        castling_of(f) is Ok,
    ensures
        castling_text(castling_of(f)->Ok_0) == f,
{
    if f != seq!['-'] {
        lemma_castling_letters(f, no_castling(), f);
        let c = castling_of(f)->Ok_0;
        assert(castle_letters(no_castling()) =~= Seq::<char>::empty());
        assert(castle_letters(c) =~= f);
        assert(c != no_castling());
    }
}


/// A rank text with no two digits side by side: each run of empty squares is
/// written as one digit.
pub open spec fn no_adjacent_digits(r: Seq<char>) -> bool {
    forall|i: int| 0 <= i < r.len() - 1 ==> !(is_digit(#[trigger] r[i]) && is_digit(r[i + 1]))
}

/// Reading a rank only adds squares after those already read.
proof fn lemma_scan_extends(rest: Seq<char>, acc: Seq<Option<(Piece, Color)>>, rank: Seq<char>)
    requires
        rank_cells_from(rest, acc, rank) is Ok,
    ensures
        ({
            let full = rank_cells_from(rest, acc, rank)->Ok_0;
            full.len() >= acc.len() && full.subrange(0, acc.len() as int) == acc
        }),
    decreases rest.len(),
{
    if rest.len() > 0 {
        let c = rest[0];
        if is_digit(c) {
            let acc2 = acc + empty_cells(digit_value(c));
            lemma_scan_extends(rest.drop_first(), acc2, rank);
            let full = rank_cells_from(rest, acc, rank)->Ok_0;
            assert(full.subrange(0, acc.len() as int) =~= full.subrange(0, acc2.len() as int).subrange(
                0,
                acc.len() as int,
            ));
            assert(acc2.subrange(0, acc.len() as int) =~= acc);
        } else {
            let acc2 = acc.push(piece_of_fen_char(c));
            lemma_scan_extends(rest.drop_first(), acc2, rank);
            let full = rank_cells_from(rest, acc, rank)->Ok_0;
            assert(full.subrange(0, acc.len() as int) =~= full.subrange(0, acc2.len() as int).subrange(
                0,
                acc.len() as int,
            ));
            assert(acc2.subrange(0, acc.len() as int) =~= acc);
        }
    } else {
        assert(acc.subrange(0, acc.len() as int) =~= acc);
    }
}

/// Empty squares before some squares add to the pending run.
proof fn lemma_empty_run_text(k: nat, cells: Seq<Option<(Piece, Color)>>, run: nat)
    ensures
        row_text_from(empty_cells(k) + cells, run) == row_text_from(cells, run + k),
    decreases k,
{
    if k == 0 {
        assert(empty_cells(0) + cells =~= cells);
    } else {
        let t = empty_cells(k) + cells;
        assert(t[0] is None);
        assert(t.drop_first() =~= empty_cells((k - 1) as nat) + cells);
        lemma_empty_run_text((k - 1) as nat, cells, run + 1);
    }
}

/// The squares read from the rest of a rank text with no adjacent digits are
/// written back as that rest, after the pending run.
proof fn lemma_rank_rest_written_back(
    rest: Seq<char>,
    acc: Seq<Option<(Piece, Color)>>,
    rank: Seq<char>,
    run: nat,
)
    requires
        rank_cells_from(rest, acc, rank) is Ok,
        no_adjacent_digits(rest),
        run < 10,
        run > 0 ==> rest.len() == 0 || !is_digit(rest[0]),
    ensures
        ({
            let full = rank_cells_from(rest, acc, rank)->Ok_0;
            row_text_from(full.skip(acc.len() as int), run) == run_text(run) + rest
        }),
    decreases rest.len(),
{
    let full = rank_cells_from(rest, acc, rank)->Ok_0;
    lemma_scan_extends(rest, acc, rank);
    if rest.len() == 0 {
        assert(full.skip(acc.len() as int) =~= Seq::<Option<(Piece, Color)>>::empty());
        assert(run_text(run) + rest =~= run_text(run));
    } else {
        let c = rest[0];
        let tail = rest.drop_first();
        assert(no_adjacent_digits(tail)) by {
            assert forall|i: int| 0 <= i < tail.len() - 1 implies !(is_digit(#[trigger] tail[i])
                && is_digit(tail[i + 1])) by {
                assert(tail[i] == rest[i + 1] && tail[i + 1] == rest[i + 2]);
            }
        }
        if tail.len() > 0 {
            assert(tail[0] == rest[1]);
        }
        if is_digit(c) {
            let k = digit_value(c);
            let acc2 = acc + empty_cells(k);
            lemma_rank_rest_written_back(tail, acc2, rank, k);
            lemma_scan_extends(tail, acc2, rank);
            assert(full.skip(acc.len() as int) =~= empty_cells(k) + full.skip(acc2.len() as int))
                by {
                assert(full.subrange(0, acc2.len() as int) == acc2);
                assert forall|i: int| 0 <= i < k implies full.skip(acc.len() as int)[i] is None by {
                    assert(full[acc.len() + i] == full.subrange(0, acc2.len() as int)[acc.len()
                        + i]);
                }
            }
            lemma_empty_run_text(k, full.skip(acc2.len() as int), 0);
            lemma_digit_of_value(c);
            assert(run_text(k) == seq![c]);
            assert(run == 0);
            assert(run_text(0) + rest =~= seq![c] + tail);
        } else {
            let pc = piece_of_fen_char(c)->0;
            let acc2 = acc.push(Some(pc));
            lemma_rank_rest_written_back(tail, acc2, rank, 0);
            lemma_scan_extends(tail, acc2, rank);
            let cells = full.skip(acc.len() as int);
            assert(cells[0] == Some(pc)) by {
                assert(full.subrange(0, acc2.len() as int) == acc2);
                assert(full[acc.len() as int] == full.subrange(0, acc2.len() as int)[acc.len() as int]);
            }
            assert(cells.drop_first() =~= full.skip(acc2.len() as int));
            lemma_fen_char_named(c);
            assert(run_text(0) + tail =~= tail);
            assert(run_text(run) + seq![c] + tail =~= run_text(run) + rest);
        }
    }
}

/// A rank text with no adjacent digits is written back unchanged.
pub proof fn lemma_rank_written_back(r: Seq<char>)
    requires
        rank_cells(r) is Ok,
        no_adjacent_digits(r),
    ensures
        row_text_from(rank_cells(r)->Ok_0, 0) == r,
{
    let empty = Seq::<Option<(Piece, Color)>>::empty();
    lemma_rank_rest_written_back(r, empty, r, 0);
    let full = rank_cells_from(r, empty, r)->Ok_0;
    assert(full.skip(0) =~= full);
    assert(run_text(0) + r =~= r);
}


/// The pieces `ps` joined with `sep` between them.
pub open spec fn joined(ps: Seq<Seq<char>>, sep: char) -> Seq<char>
    decreases ps.len(),
{
    if ps.len() == 0 {
        seq![]
    } else if ps.len() == 1 {
        ps[0]
    } else {
        ps[0] + seq![sep] + joined(ps.drop_first(), sep)
    }
}

/// Joining the pieces of a text at `sep` gives the text back.
proof fn lemma_join_pieces(rest: Seq<char>, sep: char, cur: Seq<char>)
    ensures
        pieces_from(rest, sep, cur).len() > 0,
        joined(pieces_from(rest, sep, cur), sep) == cur + rest,
    decreases rest.len(),
{
    if rest.len() == 0 {
        assert(cur + rest =~= cur);
    } else if rest[0] == sep {
        let tail = rest.drop_first();
        lemma_join_pieces(tail, sep, seq![]);
        let ps = seq![cur] + pieces_from(tail, sep, seq![]);
        assert(ps.drop_first() =~= pieces_from(tail, sep, seq![]));
        assert(Seq::<char>::empty() + tail =~= tail);
        assert(cur + seq![sep] + tail =~= cur + rest);
    } else {
        let tail = rest.drop_first();
        lemma_join_pieces(tail, sep, cur.push(rest[0]));
        assert(cur.push(rest[0]) + tail =~= cur + rest);
    }
}

/// Rows read from rank texts: one row for each text, read from it.
pub proof fn lemma_rows_of_parts(ranks: Seq<Seq<char>>)
    requires
        rows_of(ranks) is Ok,
    ensures
        rows_of(ranks)->Ok_0.len() == ranks.len(),
        forall|i: int| 0 <= i < ranks.len() ==> rank_cells(#[trigger] ranks[i]) == Ok::<
            Seq<Option<(Piece, Color)>>,
            FenErrorView,
        >(rows_of(ranks)->Ok_0[i]),
    decreases ranks.len(),
{
    if ranks.len() > 0 {
        let front = ranks.drop_last();
        lemma_rows_of_parts(front);
        assert forall|i: int| 0 <= i < ranks.len() implies rank_cells(#[trigger] ranks[i]) == Ok::<
            Seq<Option<(Piece, Color)>>,
            FenErrorView,
        >(rows_of(ranks)->Ok_0[i]) by {
            if i < ranks.len() - 1 {
                assert(ranks[i] == front[i]);
            }
        }
    }
}

/// The squares of a rank, put in place from rows listed from rank 8 down.
proof fn lemma_rank_rows(rows: Seq<Seq<Option<(Piece, Color)>>>, r: int)
    requires
        rows.len() == 8,
        forall|i: int| 0 <= i < 8 ==> (#[trigger] rows[i]).len() == 8,
        0 <= r < 8,
    ensures
        rank_row(squares_of_rows(rows), r) == rows[7 - r],
{
    let sq = squares_of_rows(rows);
    assert forall|f: int| 0 <= f < 8 implies #[trigger] rank_row(sq, r)[f] == rows[7 - r][f] by {
        let k = r * 8 + f;
        assert(k / 8 == r && k % 8 == f) by (nonlinear_arith)
            requires
                k == r * 8 + f,
                0 <= f < 8,
                0 <= r,
        ;
    }
    assert(rank_row(sq, r) =~= rows[7 - r]);
}

/// The text of the lowest `n` ranks is the last `n` rank texts joined by `/`.
proof fn lemma_ranks_text_joined(
    sq: Seq<Option<(Piece, Color)>>,
    ranks: Seq<Seq<char>>,
    n: int,
)
    requires
        ranks.len() == 8,
        forall|r: int| 0 <= r < 8 ==> row_text_from(#[trigger] rank_row(sq, r), 0) == ranks[7 - r],
        1 <= n <= 8,
    ensures
        ranks_text(sq, n) == joined(ranks.subrange(8 - n, 8), '/'),
    decreases n,
{
    let ps = ranks.subrange(8 - n, 8);
    assert(row_text_from(rank_row(sq, n - 1), 0) == ranks[8 - n]);
    if n > 1 {
        lemma_ranks_text_joined(sq, ranks, n - 1);
        assert(ps.drop_first() =~= ranks.subrange(9 - n, 8));
    }
}

/// A placement field whose ranks have no adjacent digits is written back unchanged.
pub proof fn lemma_placement_written_back(field: Seq<char>)
    requires
        placement_of(field) is Ok,
        forall|i: int|
            0 <= i < pieces(field, '/').len() ==> no_adjacent_digits(
                #[trigger] pieces(field, '/')[i],
            ),
    ensures
        placement_text(placement_of(field)->Ok_0) == field,
{
    let ranks = pieces(field, '/');
    let rows = rows_of(ranks)->Ok_0;
    let sq = placement_of(field)->Ok_0;
    lemma_rows_of_parts(ranks);
    assert forall|i: int| 0 <= i < 8 implies (#[trigger] rows[i]).len() == 8 by {
        assert(rank_cells(ranks[i]) is Ok);
    }
    assert forall|r: int| 0 <= r < 8 implies row_text_from(#[trigger] rank_row(sq, r), 0)
        == ranks[7 - r] by {
        lemma_rank_rows(rows, r);
        assert(rank_cells(ranks[7 - r]) is Ok);
        lemma_rank_written_back(ranks[7 - r]);
    }
    lemma_ranks_text_joined(sq, ranks, 8);
    assert(ranks.subrange(0, 8) =~= ranks);
    lemma_join_pieces(field, '/', seq![]);
    assert(Seq::<char>::empty() + field =~= field);
}


/// Every word is non-empty.
proof fn lemma_words_nonempty(rest: Seq<char>, cur: Seq<char>)
    ensures
        forall|i: int|
            0 <= i < words_from(rest, cur).len() ==> (#[trigger] words_from(rest, cur)[i]).len()
                > 0,
    decreases rest.len(),
{
    let ws = words_from(rest, cur);
    if rest.len() == 0 {
        if cur.len() > 0 {
            assert(ws == seq![cur]);
        } else {
            assert(ws.len() == 0);
        }
    } else {
        let tail = rest.drop_first();
        lemma_words_nonempty(tail, seq![]);
        lemma_words_nonempty(tail, cur.push(rest[0]));
        if is_white_space(rest[0]) {
            if cur.len() > 0 {
                assert(ws == seq![cur] + words_from(tail, seq![]));
                assert forall|i: int| 0 <= i < ws.len() implies (#[trigger] ws[i]).len() > 0 by {
                    if i > 0 {
                        assert(ws[i] == words_from(tail, seq![])[i - 1]);
                    }
                }
            } else {
                assert(ws == words_from(tail, seq![]));
            }
        } else {
            assert(ws == words_from(tail, cur.push(rest[0])));
        }
    }
}

/// A FEN text in canonical form: the six fields separated by single spaces,
/// each rank with no two digits side by side, the castling letters in the
/// order `KQkq` (or `-`), and both numbers in plain decimal.
pub open spec fn is_canonical_fen(s: Seq<char>) -> bool {
    let f = words(s);
    &&& f.len() == 6
    &&& s == f[0] + seq![' '] + f[1] + seq![' '] + f[2] + seq![' '] + f[3] + seq![' '] + f[4]
        + seq![' '] + f[5]
    &&& forall|i: int|
        0 <= i < pieces(f[0], '/').len() ==> no_adjacent_digits(#[trigger] pieces(f[0], '/')[i])
    &&& is_castling_in_order(f[2])
    &&& is_plain_number(f[4])
    &&& is_plain_number(f[5])
}

/// A canonical FEN text is written back unchanged after parsing.
pub proof fn lemma_canonical_fen_text_written_back(s: Seq<char>)
    requires
        is_canonical_fen(s),
    ensures
        fen_result(s) matches Ok(b) ==> board_text(b) == s,
{
    if let Ok(b) = fen_result(s) {
        let f = words(s);
        lemma_words_nonempty(s, seq![]);
        assert(f[2].len() > 0);
        lemma_placement_written_back(f[0]);
        lemma_castling_in_order(f[2]);
        lemma_plain_number(f[4]);
        lemma_plain_number(f[5]);
        assert(seq![b.side_to_move.letter()] =~= f[1]);
        assert(en_passant_text(b.en_passant) == f[3]) by {
            if f[3] != seq!['-'] {
                lemma_coord_text(f[3]);
            }
        }
    }
}


/// The decimal text of a number starts with a digit, and with `0` only for
/// the number 0 itself.
proof fn lemma_decimal_lead(n: nat)
    ensures
        decimal_text(n).len() > 0,
        decimal_text(n)[0] != '+',
        n > 0 ==> decimal_text(n)[0] != '0',
        n == 0 ==> decimal_text(n).len() == 1,
    decreases n,
{
    if n >= 10 {
        lemma_decimal_lead(n / 10);
        assert(decimal_text(n)[0] == decimal_text(n / 10)[0]);
    }
}

/// The decimal text of a number is in plain decimal.
proof fn lemma_decimal_is_plain(n: nat)
    ensures
        is_plain_number(decimal_text(n)),
{
    lemma_decimal_lead(n);
}

/// The text of a rank's squares, after a pending run short enough to be one
/// digit, has no two digits side by side.
proof fn lemma_row_no_adjacent_digits(cells: Seq<Option<(Piece, Color)>>, run: nat)
    requires
        run + cells.len() < 10,
    ensures
        no_adjacent_digits(row_text_from(cells, run)),
    decreases cells.len(),
{
    if cells.len() == 0 {
        assert(run_text(run).len() <= 1);
    } else {
        let rest = cells.drop_first();
        match cells[0] {
            None => {
                lemma_row_no_adjacent_digits(rest, run + 1);
            },
            Some((p, c)) => {
                lemma_row_no_adjacent_digits(rest, 0);
                let head = run_text(run);
                let ch = fen_char_of(p, c);
                let tail = row_text_from(rest, 0);
                let t = head + seq![ch] + tail;
                assert(head.len() <= 1);
                assert(!is_digit(ch));
                assert forall|i: int| 0 <= i < t.len() - 1 implies !(is_digit(#[trigger] t[i])
                    && is_digit(t[i + 1])) by {
                    if i < head.len() {
                        assert(t[i + 1] == ch);
                    } else if i == head.len() {
                        assert(t[i] == ch);
                    } else {
                        assert(t[i] == tail[i - head.len() - 1]);
                        assert(t[i + 1] == tail[i - head.len()]);
                    }
                }
            },
        }
    }
}

/// Letters whose places in the order `KQkq` rise strictly from left to right.
pub open spec fn letters_in_order(s: Seq<char>) -> bool {
    forall|i: int, j: int|
        0 <= i < j < s.len() ==> castle_order(#[trigger] s[i]) < castle_order(#[trigger] s[j])
}

/// The letter `ch` if `add` holds, else nothing.
pub open spec fn maybe_letter(add: bool, ch: char) -> Seq<char> {
    if add {
        seq![ch]
    } else {
        seq![]
    }
}

/// Letters in order stay in order when a later letter may be added.
proof fn lemma_add_later_letter(s: Seq<char>, add: bool, ch: char)
    requires
        letters_in_order(s),
        forall|i: int| 0 <= i < s.len() ==> castle_order(#[trigger] s[i]) < castle_order(ch),
    ensures
        letters_in_order(s + maybe_letter(add, ch)),
        forall|i: int|
            0 <= i < (s + maybe_letter(add, ch)).len() ==> castle_order(
                #[trigger] (s + maybe_letter(add, ch))[i],
            ) <= castle_order(ch),
{
    let t = s + maybe_letter(add, ch);
    assert forall|i: int| 0 <= i < t.len() implies castle_order(#[trigger] t[i]) <= castle_order(ch) by {
        if i < s.len() {
            assert(t[i] == s[i]);
        }
    }
    assert forall|i: int, j: int| 0 <= i < j < t.len() implies castle_order(#[trigger] t[i])
        < castle_order(#[trigger] t[j]) by {
        assert(t[i] == s[i]);
        if j < s.len() {
            assert(t[j] == s[j]);
        }
    }
}

/// The castling field written for any rights is `-` or in the order `KQkq`.
proof fn lemma_castling_text_in_order(c: CastlingRights)
    ensures
        is_castling_in_order(castling_text(c)),
{
    if c != no_castling() {
        let e = Seq::<char>::empty();
        let k1 = maybe_letter(c.white_kingside, 'K');
        let q1 = maybe_letter(c.white_queenside, 'Q');
        let k2 = maybe_letter(c.black_kingside, 'k');
        let q2 = maybe_letter(c.black_queenside, 'q');
        lemma_add_later_letter(e, c.white_kingside, 'K');
        assert(e + k1 =~= k1);
        lemma_add_later_letter(k1, c.white_queenside, 'Q');
        lemma_add_later_letter(k1 + q1, c.black_kingside, 'k');
        lemma_add_later_letter(k1 + q1 + k2, c.black_queenside, 'q');
        assert(castling_text(c) == k1 + q1 + k2 + q2);
    }
}

/// The text written for a position is a FEN text in canonical form.
pub proof fn lemma_written_fen_is_canonical(b: BoardView)
    requires
        b.well_formed(),
    ensures
        is_canonical_fen(board_text(b)),
{
    let s = board_text(b);
    lemma_board_words(b);
    let f = words(s);
    assert(f[0] == placement_text(b.squares));
    assert(f[2] == castling_text(b.castling));
    assert(f[4] == decimal_text(b.halfmove_clock as nat));
    assert(f[5] == decimal_text(b.fullmove_number as nat));
    assert(s == f[0] + seq![' '] + f[1] + seq![' '] + f[2] + seq![' '] + f[3] + seq![' '] + f[4]
        + seq![' '] + f[5]);
    lemma_ranks_split(b.squares, 8);
    let ranks = pieces(f[0], '/');
    assert(ranks == rank_texts(b.squares, 8));
    assert forall|i: int| 0 <= i < ranks.len() implies no_adjacent_digits(#[trigger] ranks[i]) by {
        let row = rank_row(b.squares, 7 - i);
        assert(ranks[i] == row_text_from(row, 0));
        lemma_row_no_adjacent_digits(row, 0);
    }
    lemma_castling_text_in_order(b.castling);
    lemma_decimal_is_plain(b.halfmove_clock as nat);
    lemma_decimal_is_plain(b.fullmove_number as nat);
}

} // verus!
