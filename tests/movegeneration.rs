use bitchess::movegeneration::{
    generate_bishop_moves, generate_king_moves, generate_knight_moves, generate_moves,
    generate_pawn_moves, generate_queen_moves, generate_rook_moves, king_is_in_check, Game,
};
use bitchess::position::Color::{self, Black, White};
use bitchess::position::PieceType::{Bishop, King, Knight, Pawn, Queen, Rook};
use bitchess::position::{position_to_bit, position_to_index, square_to_index};
use bitchess::utils::bit_scan;

#[test]
fn test_generate_knight_moves() {
    let not_alot = "8/8/8/4N3/2N5/8/8/8 w - - 0 1";
    let game = Game::read_FEN(not_alot).unwrap();

    let positions = generate_knight_moves(&game.position.pieces[0], &game);
    let new_positions = [19, 21, 30, 42, 46, 51, 53];
    assert_eq!(positions.len(), 7);
    for pos in positions {
        assert_eq!(pos.pieces.len(), 2);
        let piece = &pos.pieces[0];
        let index = bit_scan(piece.position);
        assert!(new_positions.contains(&index));
    }
}

#[test]
fn test_generate_knight_moves_three_knights() {
    let not_alot = "8/5N2/8/4N3/2N5/8/8/8 w - - 0 1";
    let game = Game::read_FEN(not_alot).unwrap();

    let positions = generate_knight_moves(&game.position.pieces[1], &game);
    let new_positions = [19, 21, 30, 42, 46, 51];
    assert_eq!(positions.len(), 6);
    for pos in positions {
        assert_eq!(pos.pieces.len(), 3);
        let piece = &pos.pieces[1];
        let index = bit_scan(piece.position);
        assert!(new_positions.contains(&index));
    }
}

#[test]
fn test_generate_knight_moves_three_knights_oneblack() {
    let not_alot = "8/5n2/8/4N3/2N5/8/8/8 w - - 0 1";
    let game = Game::read_FEN(not_alot).unwrap();

    let positions = generate_knight_moves(&game.position.pieces[1], &game);
    let new_positions = [19, 21, 30, 42, 46, 51, 53];
    assert_eq!(positions.len(), 7);
    for pos in positions {
        let piece;
        if pos.pieces.len() == 3 {
            piece = &pos.pieces[1];
        } else if pos.pieces.len() == 2 {
            piece = &pos.pieces[0];
        } else {
            panic!("Invalid number of pieces: {}", pos.pieces.len());
        }
        assert_eq!(piece.color, Color::White);
        let index = bit_scan(piece.position);
        assert!(new_positions.contains(&index));
    }
}

#[test]
fn test_generate_knight_moves_three_knights_twoblack() {
    let not_alot = "8/5n2/8/4N3/2n5/8/8/8 w - - 0 1";
    let game = Game::read_FEN(not_alot).unwrap();

    let positions = generate_knight_moves(&game.position.pieces[1], &game);
    let new_positions = [19, 21, 26, 30, 42, 46, 51, 53];
    assert_eq!(positions.len(), 8);
    for pos in positions {
        let mut piece = &pos.pieces[0];
        for pie in &pos.pieces {
            if pie.color == Color::White {
                piece = pie;
                break;
            }
        }
        assert!(pos.pieces.len() == 2 || pos.pieces.len() == 3);

        let index = bit_scan(piece.position);
        assert!(new_positions.contains(&index));
    }
}

#[test]
fn test_generate_bishop_moves_one_bishop() {
    let fen = "7B/8/8/8/8/8/8/8 w - - 0 1";
    let game = Game::read_FEN(fen).unwrap();

    let positions = generate_bishop_moves(&game.position.pieces[0], &game);
    let new_positions = [0, 9, 18, 27, 36, 45, 54];
    assert_eq!(positions.len(), new_positions.len());
    for pos in positions {
        let mut piece = &pos.pieces[0];
        for pie in &pos.pieces {
            if pie.color == Color::White {
                piece = pie;
                break;
            }
        }
        assert!(pos.pieces.len() == 1);

        let index = bit_scan(piece.position);
        assert!(new_positions.contains(&index));
    }
}

#[test]
fn test_generate_bishop_moves_one_bishop_middle() {
    let fen = "8/8/8/4B3/8/8/8/8 w - - 0 1";
    let game = Game::read_FEN(fen).unwrap();

    let positions = generate_bishop_moves(&game.position.pieces[0], &game);
    let new_positions = [45, 54, 63, 27, 18, 9, 0, 43, 50, 57, 29, 22, 15];

    for pos in positions {
        let mut piece = &pos.pieces[0];
        for pie in &pos.pieces {
            if pie.color == Color::White {
                piece = pie;
                break;
            }
        }
        assert!(pos.pieces.len() == 1);

        let index = bit_scan(piece.position);
        assert!(new_positions.contains(&index));
    }
}

#[test]
fn test_generate_bishop_moves_two_bishops_middle() {
    let fen = "8/8/5B2/4B3/8/8/8/8 w - - 0 1";
    let game = Game::read_FEN(fen).unwrap();

    let positions = generate_bishop_moves(&game.position.pieces[1], &game);
    let new_positions = [27, 18, 9, 0, 43, 50, 57, 29, 22, 15];

    for pos in positions {
        let piece = &pos.pieces[1];
        assert!(pos.pieces.len() == 2);

        let index = bit_scan(piece.position);
        assert!(new_positions.contains(&index));
    }
}

#[test]
fn test_generate_bishop_moves_two_bishops_middle_black() {
    let fen = "8/8/5b2/4b3/8/8/8/8 w - - 0 1";
    let game = Game::read_FEN(fen).unwrap();

    let positions = generate_bishop_moves(&game.position.pieces[1], &game);
    let new_positions = [27, 18, 9, 0, 43, 50, 57, 29, 22, 15];

    for pos in positions {
        let piece = &pos.pieces[1];
        assert!(pos.pieces.len() == 2);

        let index = bit_scan(piece.position);
        assert!(new_positions.contains(&index));
    }
}

#[test]
fn test_generate_bishop_moves_one_friendly_one_enemy() {
    let fen = "8/8/3B4/4B3/3b4/8/8/8 w - - 0 1";
    let game = Game::read_FEN(fen).unwrap();

    let positions = generate_bishop_moves(&game.position.pieces[1], &game);
    let new_positions = [45, 54, 63, 27, 29, 22, 15];

    assert_eq!(positions.len(), new_positions.len());
    'outer: for pos in positions {
        assert!(pos.pieces.len() == 2 || pos.pieces.len() == 3);

        for piece in &pos.pieces {
            if piece.color == Color::White && new_positions.contains(&bit_scan(piece.position))
            {
                continue 'outer;
            }
        }
        assert!(false);
    }
}

#[test]
fn test_generate_rook_moves() {
    let game = Game::empty().add(Color::White, Rook, "e3");

    let positions = generate_rook_moves(&game.position.pieces[0], &game);
    let new_positions = [
        "e2", "e1", "a3", "b3", "c3", "d3", "f3", "g3", "h3", "e4", "e5", "e6", "e7", "e8",
    ]
    .iter()
    .map(|string| square_to_index(string))
    .collect::<Vec<usize>>();

    assert_eq!(positions.len(), new_positions.len());
    for pos in positions {
        assert!(pos.pieces.len() == 1);
        assert!(new_positions.contains(&bit_scan(pos.pieces[0].position)));
        assert_eq!(pos.pieces[0].piece_type, Rook);
        assert_eq!(pos.pieces[0].color, White);
    }
}

#[test]
fn test_generate_rook_moves_one_enemy() {
    let game = Game::empty().add(White, Rook, "e3").add(Black, Rook, "e5");

    assert_eq!(game.position.pieces.len(), 2);

    let new_positions = [
        "e1", "e2", "e4", "e5", "a3", "b3", "c3", "d3", "f3", "g3", "h3",
    ]
    .iter()
    .map(|s| square_to_index(s))
    .collect::<Vec<usize>>();

    let positions = generate_rook_moves(&game.position.pieces[0], &game);

    assert_eq!(positions.len(), new_positions.len());
    for pos in positions {
        assert!(pos.pieces.len() == 1 || pos.pieces.len() == 2);
        assert!(new_positions.contains(&bit_scan(pos.pieces[0].position)));
        assert_eq!(pos.pieces[0].piece_type, Rook);
        assert_eq!(pos.pieces[0].color, White);
    }
}

#[test]
fn test_generate_rook_moves_one_enemy_one_friendly() {
    let game = Game::empty()
        .add(White, Rook, "d5")
        .add(White, Rook, "d2")
        .add(Black, Rook, "g5");

    let new_positions = [
        "d3", "d4", "d6", "d7", "d8", "a5", "b5", "c5", "e5", "f5", "g5",
    ]
    .iter()
    .map(|s| square_to_index(s))
    .collect::<Vec<usize>>();

    let positions = generate_rook_moves(&game.position.pieces[0], &game);

    assert_eq!(positions.len(), new_positions.len());

    for pos in positions {
        assert!(pos.pieces.len() == 3 || pos.pieces.len() == 2);
        assert!(new_positions.contains(&bit_scan(pos.pieces[0].position)));
        assert_eq!(pos.pieces[0].piece_type, Rook);
        assert_eq!(pos.pieces[0].color, White);
    }
}

#[test]
fn test_generate_queen_moves() {
    let game = Game::empty().add(White, Queen, "d5");

    let expected_positions = [
        "a5", "b5", "c5", "e5", "f5", "g5", "h5", "d1", "d2", "d3", "d4", "d6", "d7", "d8",
        "c4", "b3", "a2", "e6", "f7", "g8", "c6", "b7", "a8", "e4", "f3", "g2", "h1",
    ]
    .iter()
    .map(|s| square_to_index(s))
    .collect::<Vec<usize>>();

    let positions = generate_queen_moves(&game.position.pieces[0], &game);

    assert_eq!(positions.len(), expected_positions.len());
    for pos in positions {
        assert_eq!(pos.pieces.len(), 1);
        assert!(expected_positions.contains(&bit_scan(pos.pieces[0].position)));
        assert_eq!(pos.pieces[0].piece_type, Queen);
        assert_eq!(pos.pieces[0].color, White);
    }
}

#[test]
fn test_generate_queen_moves_one_enemy() {
    let game = Game::empty().add(White, Queen, "d5").add(Black, Pawn, "c6");

    let expected_positions = [
        "a5", "b5", "c5", "e5", "f5", "g5", "h5", "d1", "d2", "d3", "d4", "d6", "d7", "d8",
        "c4", "b3", "a2", "e6", "f7", "g8", "c6", "e4", "f3", "g2", "h1",
    ]
    .iter()
    .map(|s| square_to_index(s))
    .collect::<Vec<usize>>();

    let positions = generate_queen_moves(&game.position.pieces[0], &game);

    assert_eq!(positions.len(), expected_positions.len());
    for pos in positions {
        assert!(pos.pieces.len() == 1 || pos.pieces.len() == 2);
        assert!(expected_positions.contains(&bit_scan(pos.pieces[0].position)));
        assert_eq!(pos.pieces[0].piece_type, Queen);
        assert_eq!(pos.pieces[0].color, White);
    }
}

#[test]
fn test_generate_queen_moves_one_enemy_one_friendly() {
    let game = Game::empty()
        .add(White, Queen, "d5")
        .add(Black, Pawn, "d6")
        .add(White, Pawn, "c5");

    let expected_positions = [
        "e5", "f5", "g5", "h5", "d1", "d2", "d3", "d4", "d6", "c4", "b3", "a2", "e6", "f7",
        "g8", "c6", "b7", "a8", "e4", "f3", "g2", "h1",
    ]
    .iter()
    .map(|s| square_to_index(s))
    .collect::<Vec<usize>>();

    let positions = generate_queen_moves(&game.position.pieces[0], &game);

    assert_eq!(positions.len(), expected_positions.len());
    for pos in positions {
        assert!(pos.pieces.len() == 2 || pos.pieces.len() == 3);
        assert!(expected_positions.contains(&bit_scan(pos.pieces[0].position)));
        assert_eq!(pos.pieces[0].piece_type, Queen);
        assert_eq!(pos.pieces[0].color, White);
    }
}

#[test]
fn test_generate_king_moves() {
    let game = Game::empty().add(White, King, "d5");

    let expected_positions = ["c5", "e5", "d4", "d6", "c4", "e6", "c6", "e4"]
        .iter()
        .map(|s| square_to_index(s))
        .collect::<Vec<usize>>();

    let positions = generate_king_moves(&game.position.pieces[0], &game);

    assert_eq!(positions.len(), expected_positions.len());
    for pos in positions {
        assert_eq!(pos.pieces.len(), 1);
        assert!(expected_positions.contains(&bit_scan(pos.pieces[0].position)));
        assert_eq!(pos.pieces[0].piece_type, King);
        assert_eq!(pos.pieces[0].color, White);
    }
}

#[test]
fn test_generate_king_moves_one_enemy() {
    let game = Game::empty().add(White, King, "d5").add(Black, King, "d6");

    let expected_positions = ["c5", "e5", "d4", "d6", "c4", "e6", "c6", "e4"]
        .iter()
        .map(|s| square_to_index(s))
        .collect::<Vec<usize>>();

    let positions = generate_king_moves(&game.position.pieces[0], &game);

    assert_eq!(positions.len(), expected_positions.len());
    for pos in positions {
        let alive_count = pos.pieces.iter().filter(|p| p.alive).count();
        assert!(alive_count == 1 || alive_count == 2);
        assert_eq!(pos.pieces.len(), 2);
        assert!(expected_positions.contains(&bit_scan(pos.pieces[0].position)));
        assert_eq!(pos.pieces[0].piece_type, King);
        assert_eq!(pos.pieces[0].color, White);
    }
}

#[test]
fn test_generate_king_moves_one_enemy_one_friendly() {
    let game = Game::empty()
        .add(White, King, "d5")
        .add(Black, King, "d6")
        .add(White, King, "d4");

    let expected_positions = ["c5", "e5", "d6", "c4", "e6", "c6", "e4"]
        .iter()
        .map(|s| square_to_index(s))
        .collect::<Vec<usize>>();

    let positions = generate_king_moves(&game.position.pieces[0], &game);

    assert_eq!(positions.len(), expected_positions.len());
    for pos in positions {
        assert!(pos.pieces.len() == 3 || pos.pieces.len() == 2);
        assert!(expected_positions.contains(&bit_scan(pos.pieces[0].position)));
        assert_eq!(pos.pieces[0].piece_type, King);
        assert_eq!(pos.pieces[0].color, White);
    }
}

#[test]
fn test_generate_pawn_moves() {
    let game = Game::empty().add(White, Pawn, "d2");

    let expected_positions = ["d3", "d4"]
        .iter()
        .map(|s| square_to_index(s))
        .collect::<Vec<usize>>();

    let positions = generate_pawn_moves(&game.position.pieces[0], &game);

    assert_eq!(positions.len(), 2);

    for pos in positions {
        assert!(expected_positions.contains(&bit_scan(pos.pieces[0].position)));
    }
}

#[test]
fn test_generate_pawn_moves_en_passant() {
    let mut game = Game::empty().add(White, Pawn, "d2").add(Black, Pawn, "c4");

    game.position.move_piece(
        game.position.pieces[0].position,
        position_to_index("d4").unwrap(),
    );

    let expected_positions = ["d3", "c3"]
        .iter()
        .map(|s| square_to_index(s))
        .collect::<Vec<usize>>();

    let positions = generate_pawn_moves(&game.position.pieces[1], &game);

    assert_eq!(positions.len(), 2);

    for pos in positions {
        assert!(expected_positions.contains(&bit_scan(pos.pieces[1].position)));
    }
}

#[test]
fn test_generate_pawn_moves_middle() {
    let game = Game::empty().add(White, Pawn, "d4");

    let expected_positions = ["d5"]
        .iter()
        .map(|s| square_to_index(s))
        .collect::<Vec<usize>>();

    let positions = generate_pawn_moves(&game.position.pieces[0], &game);

    assert_eq!(positions.len(), 1);

    for pos in positions {
        assert!(expected_positions.contains(&bit_scan(pos.pieces[0].position)));
    }
}

#[test]
fn test_pawn_blocked() {
    let game = Game::empty().add(White, Pawn, "d4").add(Black, Pawn, "d5");

    let positions = generate_pawn_moves(&game.position.pieces[0], &game);

    assert_eq!(positions.len(), 0);
}

#[test]
fn test_king_is_in_check() {
    let game = Game::empty().add(White, King, "e1").add(Black, Queen, "e5");

    assert!(king_is_in_check(
        &game.position,
        White,
        &game.ray_attacks,
        &game.knight_attacks
    ));
}

#[test]
fn test_king_is_not_in_check() {
    let game = Game::empty().add(White, King, "e1").add(White, Queen, "e5");

    assert!(!king_is_in_check(
        &game.position,
        White,
        &game.ray_attacks,
        &game.knight_attacks
    ));
}

#[test]
fn test_king_is_in_knight_check() {
    let game = Game::empty()
        .add(White, King, "e1")
        .add(Black, Knight, "f3");

    assert!(king_is_in_check(
        &game.position,
        White,
        &game.ray_attacks,
        &game.knight_attacks
    ));
}

#[test]
fn test_king_is_not_in_check_bishop() {
    let game = Game::empty()
        .add(White, King, "e1")
        .add(Black, Bishop, "h4")
        .add(White, Pawn, "f2");

    assert!(!king_is_in_check(
        &game.position,
        White,
        &game.ray_attacks,
        &game.knight_attacks
    ));
}

#[test]
fn test_move_generator_doesnt_generate_in_check() {
    let game = Game::empty()
        .add(White, King, "e1")
        .add(White, Pawn, "e2")
        .add(Black, Rook, "e3")
        .add(Black, Queen, "d7");

    let positions = generate_moves(&game);

    assert_eq!(positions.len(), 2);

    let expected_positions = ["f1", "f2"]
        .iter()
        .map(|s| square_to_index(s))
        .collect::<Vec<usize>>();

    for pos in positions {
        assert!(expected_positions.contains(&bit_scan(pos.pieces[0].position)));
    }
}

#[test]
fn test_promote_single_pawn() {
    let game = Game::empty().add(White, Pawn, "e7");

    let positions = generate_pawn_moves(&game.position.pieces[0], &game);

    assert_eq!(positions.len(), 4);

    let allowed_types = [Queen, Bishop, Knight, Rook];

    for pos in positions {
        assert_eq!(pos.count_pieces(), 1);
        assert!(allowed_types.contains(&pos.pieces[1].piece_type));
    }
}

#[test]
fn promotion_candidates_one_per_kind() {
    let game = Game::empty().add(White, Pawn, "e7");
    let positions = generate_pawn_moves(&game.position.pieces[0], &game);
    let kinds: Vec<_> = positions.iter().map(|p| p.pieces[1].piece_type).collect();
    assert_eq!(kinds, vec![Queen, Bishop, Knight, Rook]);
    for pos in &positions {
        assert!(!pos.pieces[0].alive);
        assert!(pos.pieces[1].alive);
        assert_eq!(pos.pieces[1].position, 1 << 60);
        assert_eq!(pos.pieces[1].color, White);
        assert_eq!(pos.squares[60], bitchess::position::Square::Occupied(1));
    }
}

#[test]
fn capture_promotions_on_both_sides() {
    let game = Game::empty()
        .add(Black, Pawn, "d2")
        .add(White, Rook, "c1")
        .add(White, Knight, "e1")
        .add(White, Bishop, "d1");
    let positions = generate_pawn_moves(&game.position.pieces[0], &game);
    assert_eq!(positions.len(), 8);
    for pos in &positions[0..4] {
        assert_eq!(pos.pieces[4].position, 1 << 4);
        assert!(!pos.pieces[2].alive);
        assert!(!pos.pieces[0].alive);
    }
    for pos in &positions[4..8] {
        assert_eq!(pos.pieces[4].position, 1 << 2);
        assert!(!pos.pieces[1].alive);
        assert_eq!(pos.pieces[4].color, Black);
    }
}

#[test]
fn pawn_from_start_square_in_position_description() {
    let game = Game::read_FEN("8/8/8/8/8/8/4P3/4K3 w - - 0 1").unwrap();
    let pawn = game.position.pieces[0];
    assert_eq!(pawn.piece_type, Pawn);
    let positions = generate_pawn_moves(&pawn, &game);
    let squares: Vec<usize> = positions.iter().map(|p| bit_scan(p.pieces[0].position)).collect();
    assert_eq!(squares, vec![square_to_index("e3"), square_to_index("e4")]);
    assert_eq!(positions[1].en_passant, None);

    let game = Game::read_FEN("8/8/8/8/3p4/8/4P3/4K3 w - - 0 1").unwrap();
    let positions = generate_pawn_moves(&game.position.pieces[1], &game);
    assert_eq!(positions.len(), 2);
    assert_eq!(positions[1].en_passant, Some(position_to_bit("e3").unwrap()));
}

#[test]
fn king_in_check_from_queen_in_front_unless_blocked() {
    let game = Game::empty().add(White, King, "e1").add(Black, Queen, "e2");
    assert!(king_is_in_check(&game.position, White, &game.ray_attacks, &game.knight_attacks));
    let game = Game::empty().add(White, King, "e1").add(Black, Queen, "e4");
    assert!(king_is_in_check(&game.position, White, &game.ray_attacks, &game.knight_attacks));
    let game = game.add(White, Pawn, "e2");
    assert!(!king_is_in_check(&game.position, White, &game.ray_attacks, &game.knight_attacks));
}

#[test]
fn check_by_pawns_and_kings() {
    let game = Game::empty().add(White, King, "e4").add(Black, Pawn, "d5");
    assert!(king_is_in_check(&game.position, White, &game.ray_attacks, &game.knight_attacks));
    let game = Game::empty().add(White, King, "e4").add(Black, Pawn, "d3");
    assert!(!king_is_in_check(&game.position, White, &game.ray_attacks, &game.knight_attacks));
    let game = Game::empty().add(Black, King, "e4").add(White, Pawn, "d3");
    assert!(king_is_in_check(&game.position, Black, &game.ray_attacks, &game.knight_attacks));
    let game = Game::empty().add(White, King, "e4").add(Black, King, "e5");
    assert!(king_is_in_check(&game.position, White, &game.ray_attacks, &game.knight_attacks));
    let game = Game::empty().add(White, Pawn, "e4");
    assert!(!king_is_in_check(&game.position, White, &game.ray_attacks, &game.knight_attacks));
}

#[test]
fn legal_moves_from_the_start() {
    let game = Game::new();
    assert_eq!(generate_moves(&game).len(), 20);
    let game = Game::read_FEN("rnbqkbnr/pppppppp/8/8/8/8/PPPPPPPP/RNBQKBNR b KQkq - 0 1").unwrap();
    assert_eq!(generate_moves(&game).len(), 20);
}

#[test]
fn en_passant_capture_is_generated() {
    let game = Game::read_FEN("4k3/8/8/3pP3/8/8/8/4K3 w - d6 0 2").unwrap();
    let pawn = game.position.pieces[2];
    assert_eq!(pawn.piece_type, Pawn);
    let positions = generate_pawn_moves(&pawn, &game);
    assert_eq!(positions.len(), 2);
    let taken = &positions[1];
    assert_eq!(taken.pieces[2].position, position_to_bit("d6").unwrap());
    assert!(!taken.pieces[1].alive);
    assert_eq!(taken.black_occupancy, 1 << 60);
    assert_eq!(taken.en_passant, None);
}
