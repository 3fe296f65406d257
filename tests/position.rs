use bitchess::fen::FenError;
use bitchess::position::Color::{Black, White};
use bitchess::position::PieceType::{Bishop, King, Knight, Pawn, Queen, Rook};
use bitchess::position::{
    bit_to_position, index_to_position, position_to_bit, position_to_index, square_to_index,
    CastlingRights, Color, Piece, PieceType, Position, Square, SquareError,
};

fn get_initial_position() -> Position {
    let mut game = Position::empty();
    game.castling_rights = CastlingRights::all();
    let back = [Rook, Knight, Bishop, Queen, King, Bishop, Knight, Rook];
    for (i, kind) in back.iter().enumerate() {
        game.add_at(White, *kind, i);
    }
    for i in 8..16 {
        game.add_at(White, Pawn, i);
    }
    for i in 48..56 {
        game.add_at(Black, Pawn, i);
    }
    for (i, kind) in back.iter().enumerate() {
        game.add_at(Black, *kind, 56 + i);
    }
    game
}

#[test]
fn read_initial_position() {
    let game = Position::new();
    let default = get_initial_position();
    assert_eq!(game.active_color, Color::White);
    assert_eq!(game.castling_rights, CastlingRights::all());
    assert_eq!(game.en_passant, None);
    assert_eq!(game.halfmove_clock, 0);
    assert_eq!(game.fullmove_number, 1);
    for i in 0..64 {
        match (game.squares[i], default.squares[i]) {
            (Square::Empty, Square::Empty) => (),
            (Square::Occupied(idx1), Square::Occupied(idx2)) => {
                assert_eq!(game.pieces[idx1], default.pieces[idx2])
            }
            _ => panic!("Wrong square at index {}", i),
        }
    }
}

#[test]
fn initial_position_matches_its_description() {
    let read = Position::read_FEN("rnbqkbnr/pppppppp/8/8/8/8/PPPPPPPP/RNBQKBNR w KQkq - 0 1")
        .unwrap();
    let built = Position::new();
    assert_eq!(read.pieces, built.pieces);
    assert_eq!(read.squares, built.squares);
    assert_eq!(read.castling_rights, built.castling_rights);
    assert_eq!(read.white_occupancy, built.white_occupancy);
    assert_eq!(read.black_occupancy, built.black_occupancy);
}

#[test]
fn read_fen_black_active() {
    let game =
        Position::read_FEN("rnbqkbnr/pp1ppppp/8/2p5/4P3/5N2/PPPP1PPP/RNBQKB1R b - - 1 2").unwrap();
    assert_eq!(game.active_color, Color::Black);
}

#[test]
fn read_fen_no_castling() {
    let game =
        Position::read_FEN("rnbqkbnr/pp1ppppp/8/2p5/4P3/5N2/PPPP1PPP/RNBQKB1R b - - 1 2").unwrap();
    assert_eq!(game.castling_rights, CastlingRights::empty());
}

#[test]
fn read_fen_en_passant_allowed() {
    let en_passant_square = "g7";
    let game = Position::read_FEN(&format!(
        "rnbqkbnr/pp1ppppp/8/2p5/4P3/5N2/PPPP1PPP/RNBQKB1R b KQkq {} 1 2",
        en_passant_square
    ))
    .unwrap();
    assert_eq!(
        game.en_passant,
        Some(position_to_bit(en_passant_square).unwrap())
    );
}

#[test]
fn read_fen_moveclocks() {
    let game =
        Position::read_FEN("rnbqkbnr/pp1ppppp/7P/2p5/4P3/5N2/PPPP1PPP/RNBQKB1R b - g7 1 2")
            .unwrap();
    assert_eq!(game.halfmove_clock, 1);
    assert_eq!(game.fullmove_number, 2);
}

#[test]
fn read_all_possible_castling_rights() {
    let mut rights = "".to_owned();
    let right_chars = ["K", "Q", "k", "q"];
    for i in 0..(2 ^ 4) {
        let bitflag_rights = CastlingRights::from_bits(i).unwrap();
        for j in 0..4 {
            if (i >> j) & 1 != 0 {
                rights.push_str(right_chars[j]);
            }
        }
        let fen = format!(
            "rnbqkbnr/pppppppp/8/8/8/8/PPPPPPPP/RNBQKBNR w {} - 0 1",
            rights
        );
        let game = Position::read_FEN(&fen).unwrap();
        assert_eq!(
            game.castling_rights, bitflag_rights,
            "FEN: {}\n\n i: {}",
            fen, i
        );
        rights.clear();
    }
}

#[test]
fn every_castling_combination_reads_back() {
    let right_chars = ['K', 'Q', 'k', 'q'];
    for i in 0..16u8 {
        let mut rights = String::new();
        for (j, c) in right_chars.iter().enumerate() {
            if (i >> j) & 1 != 0 {
                rights.push(*c);
            }
        }
        if rights.is_empty() {
            rights.push('-');
        }
        let fen = format!("8/8/8/8/8/8/8/8 w {} - 0 1", rights);
        let game = Position::read_FEN(&fen).unwrap();
        assert_eq!(game.castling_rights, CastlingRights::from_bits(i).unwrap());
    }
    assert_eq!(CastlingRights::from_bits(16), None);
}

#[test]
fn read_fen_reports_each_malformed_field() {
    assert_eq!(
        Position::read_FEN("8/8/8/8/8/8/8 w - - 0 1").err(),
        Some(FenError::InvalidPlacement)
    );
    assert_eq!(
        Position::read_FEN("8/8/8/8/8/8/8/7 w - - 0 1").err(),
        Some(FenError::InvalidPlacement)
    );
    assert_eq!(
        Position::read_FEN("8/8/8/8/8/8/8/x7 w - - 0 1").err(),
        Some(FenError::InvalidPlacement)
    );
    assert_eq!(
        Position::read_FEN("8/8/8/8/8/8/8/ppppppppp w - - 0 1").err(),
        Some(FenError::InvalidPlacement)
    );
    assert_eq!(
        Position::read_FEN("8/8/8/8/8/8/8/8 x - - 0 1").err(),
        Some(FenError::InvalidColor)
    );
    assert_eq!(
        Position::read_FEN("8/8/8/8/8/8/8/8 w KX - 0 1").err(),
        Some(FenError::InvalidCastling('X'))
    );
    assert_eq!(
        Position::read_FEN("8/8/8/8/8/8/8/8 w - j3 0 1").err(),
        Some(FenError::InvalidEnPassant(SquareError::InvalidColumn('j')))
    );
    assert_eq!(
        Position::read_FEN("8/8/8/8/8/8/8/8 w - e33 0 1").err(),
        Some(FenError::InvalidEnPassant(SquareError::InvalidLength(3)))
    );
    assert_eq!(
        Position::read_FEN("8/8/8/8/8/8/8/8 w - - x 1").err(),
        Some(FenError::InvalidHalfmove)
    );
    assert_eq!(
        Position::read_FEN("8/8/8/8/8/8/8/8 w - - 0 99999999999999999999999").err(),
        Some(FenError::InvalidFullmove)
    );
    assert_eq!(
        Position::read_FEN("8/8/8/8/8/8/8/8 w - - 0").err(),
        Some(FenError::InvalidFullmove)
    );
    assert_eq!(
        Position::read_FEN("8/8/8/8/8/8/8/8 w - - 0 1 extra").err(),
        Some(FenError::InvalidFullmove)
    );
}

#[test]
fn read_fen_places_pieces_in_reading_order() {
    let game = Position::read_FEN("k7/8/8/8/8/8/8/R3K3 w - - 12 40").unwrap();
    assert_eq!(game.pieces.len(), 3);
    assert_eq!(game.pieces[0].position, 1 << 56);
    assert_eq!(game.pieces[0].piece_type, King);
    assert_eq!(game.pieces[0].color, Black);
    assert_eq!(game.pieces[1].position, 1 << 0);
    assert_eq!(game.pieces[2].position, 1 << 4);
    assert_eq!(game.white_occupancy, 1 << 0 | 1 << 4);
    assert_eq!(game.black_occupancy, 1 << 56);
    assert_eq!(game.halfmove_clock, 12);
    assert_eq!(game.fullmove_number, 40);
}

#[test]
fn test_occupancy_start_position() {
    let start = Position::new();
    let mut white_occupancy: u64 = 0;
    for i in 0..16 {
        white_occupancy |= 1 << i;
    }
    let mut black_occupancy: u64 = 0;
    for i in 48..64 {
        black_occupancy |= 1 << i;
    }

    assert_eq!(start.white_occupancy, white_occupancy);
    assert_eq!(start.black_occupancy, black_occupancy);
}

#[test]
fn test_move_piece() {
    let mut game = Position::new();
    game.move_piece(1 << 0, 16);

    assert_eq!(game.pieces[24].position, 1 << 16);
    assert_eq!(game.squares[0], Square::Empty);
    assert_eq!(game.squares[16], Square::Occupied(24));
    assert_eq!(game.en_passant, None);
}

#[test]
fn move_piece_keeps_occupancy_and_captures() {
    let mut game = Position::empty();
    game.add(White, Rook, "a1");
    game.add(Black, Knight, "a5");
    game.move_piece(1 << 0, 32);
    assert_eq!(game.white_occupancy, 1 << 32);
    assert_eq!(game.black_occupancy, 0);
    assert!(!game.pieces[1].alive);
    assert_eq!(game.squares[32], Square::Occupied(0));
    assert_eq!(game.count_pieces(), 1);
}

#[test]
fn test_en_passant_is_set() {
    let mut game = Position::empty();
    game.add(White, Pawn, "d2");
    game.add(Black, Pawn, "c4");

    game.move_piece(game.pieces[0].position, position_to_index("d4").unwrap());
    assert_eq!(game.en_passant, Some(position_to_bit("d3").unwrap()));
}

#[test]
fn en_passant_not_set_without_enemy_pawn_alongside() {
    let mut game = Position::empty();
    game.add(White, Pawn, "d2");
    game.add(White, Pawn, "c4");
    game.add(Black, Knight, "e4");
    game.move_piece(game.pieces[0].position, position_to_index("d4").unwrap());
    assert_eq!(game.en_passant, None);
}

#[test]
fn test_make_empty() {
    let position = Position::empty();
    assert_eq!(position.squares.len(), 64);
    assert_eq!(position.pieces.len(), 0);
}

#[test]
fn test_add_to_empty() {
    let mut position = Position::empty();
    position.add(White, Rook, "e3");
    assert_eq!(position.pieces.len(), 1);
    assert_eq!(position.pieces[0].position, 1 << 20);
}

#[test]
fn test_add_has_correct_occupancy() {
    let mut position = Position::empty();
    position.add(White, Rook, "e3");
    assert_eq!(position.white_occupancy, 1 << 20);
    assert_eq!(position.black_occupancy, 0);
}

#[test]
fn test_has_pawn() {
    let mut pos = Position::empty();
    pos.add(White, Pawn, "f7");
    pos.add(White, King, "g2");
    assert!(pos.has_pawn(7, 6));
    assert!(!pos.has_pawn(2, 7));
}

#[test]
fn test_take_en_passant() {
    let mut game = Position::empty();
    game.add(White, Pawn, "d2");
    game.add(Black, Pawn, "c4");
    game.move_piece(game.pieces[0].position, position_to_index("d4").unwrap());

    let c4_index = position_to_index("c4").unwrap();
    let d3_index = position_to_index("d3").unwrap();
    game.take_en_passant(1 << c4_index as u64, 1 << d3_index as u64);

    let alive_count = game.pieces.iter().filter(|p| p.alive).count();
    assert_eq!(alive_count, 1);
    assert_eq!(game.squares[d3_index], Square::Occupied(1));
    assert_eq!(game.squares[position_to_index("d4").unwrap()], Square::Empty);
    assert_eq!(game.white_occupancy, 0);
    assert_eq!(game.black_occupancy, 1 << d3_index);
    assert_eq!(game.en_passant, None);
}

#[test]
fn promotion_appends_a_new_piece() {
    let mut game = Position::empty();
    game.add(White, Pawn, "e7");
    game.perform_promotion(1 << 52, 60, Knight);
    assert_eq!(game.pieces.len(), 2);
    assert!(!game.pieces[0].alive);
    assert_eq!(
        game.pieces[1],
        Piece { position: 1 << 60, color: White, piece_type: Knight, alive: true }
    );
    assert_eq!(game.squares[60], Square::Occupied(1));
    assert_eq!(game.squares[52], Square::Empty);
    assert_eq!(game.white_occupancy, 1 << 60);
}

#[test]
fn square_names() {
    assert_eq!(square_to_index("a1"), 0);
    assert_eq!(square_to_index("e3"), 20);
    assert_eq!(square_to_index("h8"), 63);
    assert_eq!(index_to_position(0), "a1");
    assert_eq!(index_to_position(20), "e3");
    assert_eq!(index_to_position(63), "h8");
    assert_eq!(position_to_index("d4"), Ok(27));
    assert_eq!(position_to_bit("b1"), Ok(2));
    assert_eq!(bit_to_position(1 << 20 | 1 << 40), Ok("e3".to_string()));
    assert_eq!(bit_to_position(0), Err(SquareError::NoPiece));
    assert_eq!(position_to_bit("a"), Err(SquareError::InvalidLength(1)));
    assert_eq!(position_to_bit("i1"), Err(SquareError::InvalidColumn('i')));
    assert_eq!(position_to_bit("a9"), Err(SquareError::InvalidRow('9')));
    assert_eq!(position_to_index("a0"), Err(SquareError::InvalidRow('0')));
}

#[test]
fn board_drawing() {
    let start = Position::new();
    let expected = "\
r n b q k b n r 
p p p p p p p p 
. . . . . . . . 
. . . . . . . . 
. . . . . . . . 
. . . . . . . . 
P P P P P P P P 
R N B Q K B N R 
";
    assert_eq!(start.to_string(), expected);
    let piece = Piece { position: 1, color: Black, piece_type: PieceType::Queen, alive: true };
    assert_eq!(piece.to_string(), "q ");
}

#[test]
fn opposite_colors() {
    assert_eq!(White.opposite(), Black);
    assert_eq!(Black.opposite(), White);
}
