use opening_trainer::rules::{make_moves, make_moves_from, ply_of, CorpusFault, Ply};
use shakmaty::{Chess, Position};

fn e4() -> Ply {
    Ply::Normal { role: 1, from: 12, capture: None, to: 28, promotion: None }
}

#[test]
fn make_moves_plays_from_the_first_position() {
    let line: [&[u8]; 3] = [b"e4", b"e5", b"Nf3"];
    assert_eq!(
        make_moves(&line),
        Ok(vec![
            e4(),
            Ply::Normal { role: 1, from: 52, capture: None, to: 36, promotion: None },
            Ply::Normal { role: 2, from: 6, capture: None, to: 21, promotion: None },
        ])
    );
}

#[test]
fn make_moves_of_no_moves() {
    let line: [&[u8]; 0] = [];
    assert_eq!(make_moves(&line), Ok(vec![]));
}

#[test]
fn make_moves_reads_each_move_in_the_position_before_it() {
    // The same notation names different moves as the game goes on.
    let line: [&[u8]; 4] = [b"Nf3", b"Nf6", b"Nc3", b"Nc6"];
    assert_eq!(
        make_moves(&line),
        Ok(vec![
            Ply::Normal { role: 2, from: 6, capture: None, to: 21, promotion: None },
            Ply::Normal { role: 2, from: 62, capture: None, to: 45, promotion: None },
            Ply::Normal { role: 2, from: 1, capture: None, to: 18, promotion: None },
            Ply::Normal { role: 2, from: 57, capture: None, to: 42, promotion: None },
        ])
    );
}

#[test]
fn captures_castling_and_en_passant() {
    let line: [&[u8]; 11] = [
        b"e4", b"d5", b"exd5", b"Nf6", b"Nf3", b"e5", b"dxe6", b"Be7", b"Bc4", b"O-O", b"O-O",
    ];
    let moves = make_moves(&line).unwrap();
    assert_eq!(
        moves[2],
        Ply::Normal { role: 1, from: 28, capture: Some(1), to: 35, promotion: None }
    );
    assert_eq!(moves[6], Ply::EnPassant { from: 35, to: 44 });
    assert_eq!(moves[9], Ply::Castle { king: 60, rook: 63 });
    assert_eq!(moves[10], Ply::Castle { king: 4, rook: 7 });
}

#[test]
fn promotion() {
    let line: [&[u8]; 9] =
        [b"a4", b"b5", b"axb5", b"a6", b"bxa6", b"Bb7", b"axb7", b"Nc6", b"bxa8=Q"];
    let moves = make_moves(&line).unwrap();
    assert_eq!(
        moves[8],
        Ply::Normal { role: 1, from: 49, capture: Some(4), to: 56, promotion: Some(5) }
    );
}

#[test]
fn text_that_is_no_notation() {
    let line: [&[u8]; 2] = [b"e4", b"hello"];
    assert_eq!(make_moves(&line), Err(CorpusFault::InvalidSan));
    let line: [&[u8]; 1] = [b""];
    assert_eq!(make_moves(&line), Err(CorpusFault::InvalidSan));
}

#[test]
fn notation_of_no_legal_move() {
    let line: [&[u8]; 1] = [b"e5"];
    assert_eq!(make_moves(&line), Err(CorpusFault::IllegalMove));
    let line: [&[u8]; 2] = [b"e4", b"Ke7"];
    assert_eq!(make_moves(&line), Err(CorpusFault::IllegalMove));
    let line: [&[u8]; 1] = [b"--"];
    assert_eq!(make_moves(&line), Err(CorpusFault::IllegalMove));
}

#[test]
fn notation_of_two_legal_moves() {
    let line: [&[u8]; 5] = [b"Nf3", b"a6", b"d3", b"a5", b"Nbd2"];
    assert_eq!(
        make_moves(&line).unwrap()[4],
        Ply::Normal { role: 2, from: 1, capture: None, to: 11, promotion: None }
    );
    let line: [&[u8]; 5] = [b"Nf3", b"a6", b"d3", b"a5", b"Nd2"];
    assert_eq!(make_moves(&line), Err(CorpusFault::IllegalMove));
}

#[test]
fn first_fault_wins() {
    let line: [&[u8]; 3] = [b"e5", b"hello", b"e4"];
    assert_eq!(make_moves(&line), Err(CorpusFault::IllegalMove));
    let line: [&[u8]; 3] = [b"hello", b"e5", b"e4"];
    assert_eq!(make_moves(&line), Err(CorpusFault::InvalidSan));
}

#[test]
fn make_moves_from_a_later_position() {
    let first = shakmaty::san::San::from_ascii(b"e4").unwrap().to_move(&Chess::default()).unwrap();
    let start = Chess::default().play(&first).unwrap();
    let line: [&[u8]; 1] = [b"e5"];
    assert_eq!(
        make_moves_from(&start, &line),
        Ok(vec![Ply::Normal { role: 1, from: 52, capture: None, to: 36, promotion: None }])
    );
    let line: [&[u8]; 1] = [b"e4"];
    assert_eq!(make_moves_from(&start, &line), Err(CorpusFault::IllegalMove));
}

#[test]
fn ply_squares() {
    assert_eq!(e4().from(), Some(12));
    assert_eq!(e4().to(), 28);
    assert_eq!(Ply::EnPassant { from: 35, to: 44 }.from(), Some(35));
    assert_eq!(Ply::EnPassant { from: 35, to: 44 }.to(), 44);
    assert_eq!(Ply::Castle { king: 4, rook: 7 }.from(), Some(4));
    assert_eq!(Ply::Castle { king: 4, rook: 7 }.to(), 7);
    assert_eq!(Ply::Put { role: 2, to: 20 }.from(), None);
    assert_eq!(Ply::Put { role: 2, to: 20 }.to(), 20);
}

#[test]
fn ply_of_a_move_of_the_rules_crate() {
    let pos = Chess::default();
    let m = shakmaty::san::San::from_ascii(b"Nf3").unwrap().to_move(&pos).unwrap();
    assert_eq!(
        ply_of(&m),
        Ply::Normal { role: 2, from: 6, capture: None, to: 21, promotion: None }
    );
    let castle = shakmaty::Move::Castle { king: shakmaty::Square::E8, rook: shakmaty::Square::A8 };
    assert_eq!(ply_of(&castle), Ply::Castle { king: 60, rook: 56 });
    let put = shakmaty::Move::Put { role: shakmaty::Role::Queen, to: shakmaty::Square::H8 };
    assert_eq!(ply_of(&put), Ply::Put { role: 5, to: 63 });
    assert_eq!(
        make_moves(&[b"Nf3".as_slice()]),
        Ok(vec![ply_of(&m)])
    );
}
