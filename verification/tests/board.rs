use opening_trainer::components::board::{
    get_class_for_piece, get_class_for_position, Color, Piece,
};

#[test]
fn class_for_position() {
    assert_eq!(get_class_for_position(0, false), "a row1");
    assert_eq!(get_class_for_position(7, false), "h row1");
    assert_eq!(get_class_for_position(56, false), "a row8");
    assert_eq!(get_class_for_position(63, false), "h row8");
    assert_eq!(get_class_for_position(28, false), "e row4");
    assert_eq!(get_class_for_position(21, false), "f row3");
}

#[test]
fn class_for_position_on_a_turned_board() {
    assert_eq!(get_class_for_position(0, true), "h row8");
    assert_eq!(get_class_for_position(7, true), "a row8");
    assert_eq!(get_class_for_position(56, true), "h row1");
    assert_eq!(get_class_for_position(63, true), "a row1");
    assert_eq!(get_class_for_position(28, true), "d row5");
}

#[test]
fn class_for_piece() {
    let bishop = Piece { color: Color::Black, role: 3 };
    assert_eq!(get_class_for_piece(bishop, 56, false), "bishop black a row8");
    let king = Piece { color: Color::White, role: 6 };
    assert_eq!(get_class_for_piece(king, 4, false), "king white e row1");
    assert_eq!(get_class_for_piece(king, 4, true), "king white d row8");
}

#[test]
fn class_for_every_kind_of_piece() {
    let names = ["pawn", "knight", "bishop", "rook", "queen", "king"];
    for role in 1..=6u8 {
        let piece = Piece { color: Color::White, role };
        assert_eq!(
            get_class_for_piece(piece, 9, false),
            format!("{} white b row2", names[usize::from(role) - 1])
        );
    }
}

#[test]
fn every_square_has_its_own_class() {
    let mut seen = Vec::new();
    for square in 0..64u8 {
        let class = get_class_for_position(square, false);
        assert!(!seen.contains(&class));
        assert_eq!(get_class_for_position(63 - square, true), class);
        seen.push(class);
    }
}
