use chess_notation::fen::{parse_castling, piece_from_fen_char, piece_to_fen_char};
use chess_notation::{
    parse_fen, parse_san, CastleSide, CastlingRights, Color, FenError, ParseError, Piece, SanMove,
    Square,
};

fn mv(
    piece: Piece,
    from_file: Option<u8>,
    from_rank: Option<u8>,
    capture: bool,
    to: Option<(u8, u8)>,
    promotion: Option<Piece>,
    check: bool,
    checkmate: bool,
    castle: Option<CastleSide>,
) -> SanMove {
    SanMove {
        piece,
        from_file,
        from_rank,
        capture,
        to: to.map(|(file, rank)| Square { file, rank }),
        promotion,
        check,
        checkmate,
        castle,
    }
}

#[test]
fn written_moves_parse_back() {
    let moves = vec![
        mv(Piece::Pawn, None, None, false, Some((0, 0)), None, false, false, None),
        mv(Piece::Pawn, Some(7), None, true, Some((6, 7)), Some(Piece::Rook), false, true, None),
        mv(Piece::Knight, Some(1), Some(6), true, Some((3, 4)), None, true, false, None),
        mv(Piece::King, None, Some(0), false, Some((4, 1)), None, false, false, None),
        mv(Piece::Bishop, None, None, false, Some((2, 5)), Some(Piece::Queen), false, false, None),
        mv(Piece::King, None, None, false, None, None, false, true, Some(CastleSide::Queenside)),
        mv(Piece::King, None, None, false, None, None, false, false, Some(CastleSide::Kingside)),
    ];
    for m in moves {
        let text = m.to_string();
        assert_eq!(parse_san(&text), Ok(m.clone()), "{text}");
    }
}

#[test]
fn written_move_texts_are_exact() {
    let m = mv(Piece::Pawn, Some(7), None, true, Some((6, 7)), Some(Piece::Rook), false, true, None);
    assert_eq!(m.to_string(), "hxg8=R#");
    let m = mv(Piece::Queen, Some(7), Some(3), false, Some((4, 0)), None, true, false, None);
    assert_eq!(m.to_string(), "Qh4e1+");
    // Checkmate wins over check when both are set.
    let m = mv(Piece::Rook, None, None, false, Some((0, 7)), None, true, true, None);
    assert_eq!(m.to_string(), "Ra8#");
    // Off-board numbers are written as they are.
    let m = mv(Piece::Rook, None, Some(9), false, Some((0, 11)), None, false, false, None);
    assert_eq!(m.to_string(), "R10a12");
}

#[test]
fn parsing_is_canonical() {
    for input in ["0-0", "0-0-0+", "1e4", "exd5", "Nbxd7#", "R1xa3+", "Qh4xe1", "Kd8=Q"] {
        let m = parse_san(input).unwrap();
        let text = m.to_string();
        assert_eq!(parse_san(&text), Ok(m), "{input} -> {text}");
    }
    assert_eq!(parse_san("0-0").unwrap().to_string(), "O-O");
    assert_eq!(parse_san("0-0-0+").unwrap().to_string(), "O-O-O+");
}

#[test]
fn canonical_texts_are_written_back() {
    for input in ["e4", "1e4", "exd5", "Nbxd7#", "R1xa3+", "Qh4xe1", "Kd8=Q", "O-O-O#", "fxg1=N+"] {
        assert_eq!(parse_san(input).unwrap().to_string(), input);
    }
}

#[test]
fn middle_of_a_move_is_read_in_order() {
    let garbage = |s: &str| Err(ParseError::TrailingGarbage(s.to_string()));
    assert_eq!(parse_san("xd5"), garbage("x"));
    assert_eq!(parse_san("1xd5"), garbage("1x"));
    assert_eq!(parse_san("xe5"), garbage("x"));
    assert_eq!(parse_san("exxd5"), garbage("exx"));
    assert_eq!(parse_san("hbd7"), garbage("hb"));
    assert_eq!(parse_san("1ad7"), garbage("1a"));
    assert_eq!(parse_san("Nxxd7"), garbage("xx"));
    assert_eq!(parse_san("Nbbd7"), garbage("bb"));
    assert_eq!(parse_san("N11d7"), garbage("11"));
    assert_eq!(parse_san("Nxbd7"), garbage("xb"));
    assert_eq!(parse_san("Nxd7").unwrap().capture, true);
    assert_eq!(parse_san("Nb1xd7").unwrap().from_rank, Some(0));
}

#[test]
fn each_move_error_has_its_input() {
    assert_eq!(parse_san(""), Err(ParseError::Empty));
    assert_eq!(parse_san("+"), Err(ParseError::TooShort));
    assert_eq!(parse_san("Zf3"), Err(ParseError::UnknownPiece('Z')));
    assert_eq!(parse_san("Pe4"), Err(ParseError::UnknownPiece('P')));
    assert_eq!(parse_san("e9"), Err(ParseError::BadSquare("e9".to_string())));
    assert_eq!(parse_san("j4"), Err(ParseError::BadSquare("j4".to_string())));
    assert_eq!(parse_san("e8=P"), Err(ParseError::BadPromotion('P')));
    assert_eq!(parse_san("e8=K"), Err(ParseError::BadPromotion('K')));
    assert_eq!(parse_san("e8=x"), Err(ParseError::BadPromotion('x')));
    assert_eq!(
        parse_san("Qh4e1e2"),
        Err(ParseError::TrailingGarbage("h4e1".to_string()))
    );
    assert_eq!(parse_san("Pe4"), Err(ParseError::UnknownPiece('P')));
    assert_eq!(parse_san("Nzd7"), Err(ParseError::TrailingGarbage("z".to_string())));
    assert_eq!(parse_san("Nbzd2"), Err(ParseError::TrailingGarbage("z".to_string())));
    assert_eq!(parse_san("Nxz1d2"), Err(ParseError::TrailingGarbage("z".to_string())));
    assert_eq!(parse_san("R1qd2"), Err(ParseError::TrailingGarbage("q".to_string())));
    assert_eq!(
        parse_san("Qxh4e1e2"),
        Err(ParseError::TrailingGarbage("h4e1".to_string()))
    );
    assert_eq!(
        parse_san("axbxcd4"),
        Err(ParseError::TrailingGarbage("abc".to_string()))
    );
    assert_eq!(parse_san("N"), Err(ParseError::TooShort));
    assert_eq!(parse_san("e"), Err(ParseError::TooShort));
    assert_eq!(parse_san("=Q"), Err(ParseError::TooShort));
    assert_eq!(parse_san("O-O-O-O"), Err(ParseError::UnknownPiece('O')));
}

#[test]
fn move_error_messages() {
    assert_eq!(ParseError::Empty.to_string(), "empty move text");
    assert_eq!(ParseError::UnknownPiece('Z').to_string(), "unknown piece letter 'Z'");
    assert_eq!(
        ParseError::BadSquare("e9".to_string()).to_string(),
        "not a valid square: 'e9'"
    );
    assert_eq!(ParseError::BadPromotion('K').to_string(), "invalid promotion piece 'K'");
    assert_eq!(
        ParseError::TrailingGarbage("h4e1e".to_string()).to_string(),
        "unexpected trailing text: 'h4e1e'"
    );
    assert_eq!(ParseError::TooShort.to_string(), "move text too short");
}

#[test]
fn squares() {
    assert_eq!(Square::new(7, 7), Some(Square { file: 7, rank: 7 }));
    assert_eq!(Square::new(8, 0), None);
    assert_eq!(Square::new(0, 8), None);
    assert_eq!(Square::from_coord("h8"), Some(Square { file: 7, rank: 7 }));
    assert_eq!(Square::from_coord("a1"), Some(Square { file: 0, rank: 0 }));
    assert_eq!(Square::from_coord("e44"), None);
    assert_eq!(Square::from_coord("e"), None);
    assert_eq!(Square::from_coord(""), None);
    assert_eq!(Square::from_coord("i1"), None);
    assert_eq!(Square::from_coord("a0"), None);
    assert_eq!(Square { file: 4, rank: 3 }.to_string(), "e4");
    assert_eq!(Square { file: 0, rank: 9 }.to_string(), "a10");
    for file in 0..8 {
        for rank in 0..8 {
            let sq = Square { file, rank };
            assert_eq!(Square::from_coord(&sq.to_string()), Some(sq));
        }
    }
}

const START: &str = "rnbqkbnr/pppppppp/8/8/8/8/PPPPPPPP/RNBQKBNR w KQkq - 0 1";

#[test]
fn written_positions_parse_back() {
    let mut board = parse_fen(START).unwrap();
    board.castling = CastlingRights {
        white_kingside: false,
        white_queenside: true,
        black_kingside: true,
        black_queenside: false,
    };
    board.en_passant = Some(Square { file: 7, rank: 5 });
    board.halfmove_clock = 4294967295;
    board.fullmove_number = 77;
    board.side_to_move = Color::Black;
    let text = board.to_string();
    assert_eq!(
        text,
        "rnbqkbnr/pppppppp/8/8/8/8/PPPPPPPP/RNBQKBNR b Qk h6 4294967295 77"
    );
    assert_eq!(parse_fen(&text), Ok(board));
}

#[test]
fn position_parsing_is_canonical() {
    let input = "8/8/8/8/8/8/8/8\tw  -  -\n+07 +1";
    let board = parse_fen(input).unwrap();
    assert_eq!(board.halfmove_clock, 7);
    assert_eq!(board.fullmove_number, 1);
    let text = board.to_string();
    assert_eq!(text, "8/8/8/8/8/8/8/8 w - - 7 1");
    assert_eq!(parse_fen(&text), Ok(board));
    let board = parse_fen("4k3/8/8/8/8/8/8/2K1R3 w - - 0 1").unwrap();
    assert_eq!(board.to_string(), "4k3/8/8/8/8/8/8/2K1R3 w - - 0 1");
    let board = parse_fen("1114k/8/8/8/8/8/8/8 w - - 0 1").unwrap();
    assert_eq!(board.to_string(), "7k/8/8/8/8/8/8/8 w - - 0 1");
}

#[test]
fn pieces_on_squares() {
    let board = parse_fen(START).unwrap();
    assert_eq!(board.piece_at(Square { file: 3, rank: 0 }), Some((Piece::Queen, Color::White)));
    assert_eq!(board.piece_at(Square { file: 6, rank: 7 }), Some((Piece::Knight, Color::Black)));
    assert_eq!(board.piece_at(Square { file: 2, rank: 6 }), Some((Piece::Pawn, Color::Black)));
    assert_eq!(board.piece_at(Square { file: 5, rank: 3 }), None);
}

#[test]
fn each_position_error_has_its_input() {
    let err = |s: &str| parse_fen(s).unwrap_err();
    assert_eq!(err("8/8/8/8/8/8/8/8 w - - 0"), FenError::WrongFieldCount(5));
    assert_eq!(err(""), FenError::WrongFieldCount(0));
    assert_eq!(err("8/8/8/8/8/8/8 w - - 0 1"), FenError::WrongRankCount(7));
    assert_eq!(err("8/8/8/8/8/8/8/8/ w - - 0 1"), FenError::WrongRankCount(9));
    assert_eq!(
        err("8/8/8/8/8/8/PPPPPPP9/8 w - - 0 1"),
        FenError::RankTooLong("PPPPPPP9".to_string())
    );
    assert_eq!(err("8/8/8/8/8/8/08/8 w - - 0 1"), FenError::RankTooLong("08".to_string()));
    assert_eq!(err("8/8/8/8/8/8/8P/8 w - - 0 1"), FenError::RankTooLong("8P".to_string()));
    assert_eq!(
        err("8/8/8/8/8/8/PPPPPPP/8 w - - 0 1"),
        FenError::RankTooShort("PPPPPPP".to_string())
    );
    assert_eq!(err("8/8/8/8/8/8/PPPPPPPX/8 w - - 0 1"), FenError::InvalidPieceChar('X'));
    assert_eq!(err("8/8/8/8/8/8/8/8 x - - 0 1"), FenError::BadSideToMove("x".to_string()));
    assert_eq!(err("8/8/8/8/8/8/8/8 wb - - 0 1"), FenError::BadSideToMove("wb".to_string()));
    assert_eq!(err("8/8/8/8/8/8/8/8 w KK - 0 1"), FenError::BadCastling("KK".to_string()));
    assert_eq!(err("8/8/8/8/8/8/8/8 w -- - 0 1"), FenError::BadCastling("--".to_string()));
    assert_eq!(err("8/8/8/8/8/8/8/8 w - e9 0 1"), FenError::BadEnPassant("e9".to_string()));
    assert_eq!(err("8/8/8/8/8/8/8/8 w - - x 1"), FenError::BadHalfmoveClock("x".to_string()));
    assert_eq!(
        err("8/8/8/8/8/8/8/8 w - - 4294967296 1"),
        FenError::BadHalfmoveClock("4294967296".to_string())
    );
    assert_eq!(err("8/8/8/8/8/8/8/8 w - - -0 1"), FenError::BadHalfmoveClock("-0".to_string()));
    assert_eq!(err("8/8/8/8/8/8/8/8 w - - + 1"), FenError::BadHalfmoveClock("+".to_string()));
    assert_eq!(err("8/8/8/8/8/8/8/8 w - - 0 0"), FenError::BadFullmoveNumber("0".to_string()));
    assert_eq!(err("8/8/8/8/8/8/8/8 w - - 0 1x"), FenError::BadFullmoveNumber("1x".to_string()));
}

#[test]
fn position_error_messages() {
    assert_eq!(
        FenError::WrongFieldCount(5).to_string(),
        "expected 6 space-separated fields, found 5"
    );
    assert_eq!(FenError::WrongRankCount(12).to_string(), "expected 8 ranks, found 12");
    assert_eq!(
        FenError::RankTooLong("9".to_string()).to_string(),
        "rank has more than 8 files: '9'"
    );
    assert_eq!(
        FenError::RankTooShort("7".to_string()).to_string(),
        "rank has fewer than 8 files: '7'"
    );
    assert_eq!(FenError::InvalidPieceChar('X').to_string(), "invalid piece character 'X'");
    assert_eq!(
        FenError::BadSideToMove("x".to_string()).to_string(),
        "invalid side to move: 'x'"
    );
    assert_eq!(
        FenError::BadCastling("KK".to_string()).to_string(),
        "invalid castling rights: 'KK'"
    );
    assert_eq!(
        FenError::BadEnPassant("e9".to_string()).to_string(),
        "invalid en passant square: 'e9'"
    );
    assert_eq!(
        FenError::BadHalfmoveClock("x".to_string()).to_string(),
        "invalid halfmove clock: 'x'"
    );
    assert_eq!(
        FenError::BadFullmoveNumber("0".to_string()).to_string(),
        "invalid fullmove number: '0'"
    );
}

#[test]
fn castling_fields() {
    assert_eq!(CastlingRights::default().to_string(), "-");
    let c = CastlingRights {
        white_kingside: true,
        white_queenside: false,
        black_kingside: false,
        black_queenside: true,
    };
    assert_eq!(c.to_string(), "Kq");
    let board = parse_fen("8/8/8/8/8/8/8/8 w qK - 0 1").unwrap();
    assert_eq!(board.castling, c);
}

#[test]
fn board_field_getters() {
    let board = parse_fen("rnbqkbnr/pppppppp/8/8/4P3/8/PPPP1PPP/RNBQKBNR b Kq e3 3 9").unwrap();
    assert_eq!(board.side_to_move(), Color::Black);
    assert_eq!(
        board.castling(),
        CastlingRights {
            white_kingside: true,
            white_queenside: false,
            black_kingside: false,
            black_queenside: true,
        }
    );
    assert_eq!(board.en_passant(), Some(Square { file: 4, rank: 2 }));
    assert_eq!(board.halfmove_clock(), 3);
    assert_eq!(board.fullmove_number(), 9);
}

#[test]
fn canonical_positions_are_written_back() {
    for input in [
        "r3k2r/8/8/8/8/8/8/R3K2R w Kq - 12 40",
        "8/1p6/8/2Pp4/8/8/8/4K2k w - d6 0 100",
        "rnbqkbnr/pp1ppppp/8/2p5/4P3/5N2/PPPP1PPP/RNBQKB1R b KQkq - 1 2",
    ] {
        assert_eq!(parse_fen(input).unwrap().to_string(), input);
    }
}

#[test]
fn written_positions_are_canonical() {
    let board = parse_fen("44/8/8/8/8/8/8/8 w qkQK - +05 007").unwrap();
    assert_eq!(board.to_string(), "8/8/8/8/8/8/8/8 w KQkq - 5 7");
    let board = parse_fen("  r21k11r/8/8/8/8/8/8/R3K2R   b kQ e3 0 12 ").unwrap();
    assert_eq!(board.to_string(), "r3k2r/8/8/8/8/8/8/R3K2R b Qk e3 0 12");
}

#[test]
fn castling_field_reads_back() {
    for bits in 0..16u8 {
        let rights = CastlingRights {
            white_kingside: bits & 1 != 0,
            white_queenside: bits & 2 != 0,
            black_kingside: bits & 4 != 0,
            black_queenside: bits & 8 != 0,
        };
        assert_eq!(parse_castling(&rights.to_string()), Ok(rights));
    }
    assert_eq!(parse_castling("KK"), Err(FenError::BadCastling("KK".to_string())));
    assert_eq!(parse_castling(""), Ok(CastlingRights::default()));
    assert_eq!(parse_castling("-"), Ok(CastlingRights::default()));
}

#[test]
fn placement_letters_read_back() {
    let pieces = [
        Piece::Pawn,
        Piece::Knight,
        Piece::Bishop,
        Piece::Rook,
        Piece::Queen,
        Piece::King,
    ];
    let mut letters = String::new();
    for color in [Color::White, Color::Black] {
        for piece in pieces {
            let ch = piece_to_fen_char(piece, color);
            letters.push(ch);
            assert_eq!(piece_from_fen_char(ch), Some((piece, color)));
        }
    }
    assert_eq!(letters, "PNBRQKpnbrqk");
    assert_eq!(piece_from_fen_char('x'), None);
    assert_eq!(piece_from_fen_char('1'), None);
}
