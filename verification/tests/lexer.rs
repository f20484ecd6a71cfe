use opening_trainer::pgn::lexer::{Token, TokenIterator};

fn tokens(source: &str) -> Vec<Token<'_>> {
    let mut iter = TokenIterator::new(source.as_bytes());
    let mut found = Vec::new();
    while let Some(token) = iter.next() {
        found.push(token);
    }
    found
}

#[test]
fn empty_input_has_no_tokens() {
    assert_eq!(tokens(""), vec![]);
    assert_eq!(tokens("  \t\r\n \x0c "), vec![]);
}

#[test]
fn end_of_input_stays_the_end() {
    let mut iter = TokenIterator::new(b"e4 ");
    assert_eq!(iter.next(), Some(Token::SanMove(b"e4")));
    assert_eq!(iter.next(), None);
    assert_eq!(iter.next(), None);
}

#[test]
fn bare_moves() {
    assert_eq!(
        tokens("e4 exd5 Nf3 Nbd7 N1d2 Nb1d2 Nxe5 Nbxd7 R1xa3 Qh4xe1 O-O O-O-O -- Z0"),
        vec![
            Token::SanMove(b"e4"),
            Token::SanMove(b"exd5"),
            Token::SanMove(b"Nf3"),
            Token::SanMove(b"Nbd7"),
            Token::SanMove(b"N1d2"),
            Token::SanMove(b"Nb1d2"),
            Token::SanMove(b"Nxe5"),
            Token::SanMove(b"Nbxd7"),
            Token::SanMove(b"R1xa3"),
            Token::SanMove(b"Qh4xe1"),
            Token::SanMove(b"O-O"),
            Token::SanMove(b"O-O-O"),
            Token::SanMove(b"--"),
            Token::SanMove(b"Z0"),
        ]
    );
}

#[test]
fn moves_keep_their_check_and_mate_marks() {
    assert_eq!(
        tokens("Qh5+ Qxf7# e8=Q+ exd8=N# O-O+ Nf3++"),
        vec![
            Token::SanMove(b"Qh5+"),
            Token::SanMove(b"Qxf7#"),
            Token::SanMove(b"e8=Q+"),
            Token::SanMove(b"exd8=N#"),
            Token::SanMove(b"O-O+"),
            Token::SanMove(b"Nf3++"),
        ]
    );
}

#[test]
fn move_numbers_are_dropped_before_their_moves() {
    assert_eq!(
        tokens("1. e4 e5 2.Nf3 2... Nc6 12.   O-O"),
        vec![
            Token::SanMove(b"e4"),
            Token::SanMove(b"e5"),
            Token::SanMove(b"Nf3"),
            Token::SanMove(b"Nc6"),
            Token::SanMove(b"O-O"),
        ]
    );
}

#[test]
fn move_number_without_a_move_is_its_own_token() {
    assert_eq!(tokens("1."), vec![Token::MoveNr]);
    assert_eq!(
        tokens("3. {best} Bb5"),
        vec![Token::MoveNr, Token::Commentary(b"best"), Token::SanMove(b"Bb5")]
    );
    assert_eq!(tokens("7... ("), vec![Token::MoveNr, Token::StartVariation]);
}

#[test]
fn variation_delimiters() {
    assert_eq!(
        tokens("e4 (d4 d5) e5"),
        vec![
            Token::SanMove(b"e4"),
            Token::StartVariation,
            Token::SanMove(b"d4"),
            Token::SanMove(b"d5"),
            Token::EndVariation,
            Token::SanMove(b"e5"),
        ]
    );
    assert_eq!(tokens("()"), vec![Token::StartVariation, Token::EndVariation]);
}

#[test]
fn results() {
    assert_eq!(
        tokens("1-0 0-1 1/2-1/2 *"),
        vec![
            Token::GameResult(b"1-0"),
            Token::GameResult(b"0-1"),
            Token::GameResult(b"1/2-1/2"),
            Token::GameResult(b"*"),
        ]
    );
}

#[test]
fn result_comes_before_move_number() {
    assert_eq!(tokens("1-0"), vec![Token::GameResult(b"1-0")]);
    assert_eq!(tokens("1. e4"), vec![Token::SanMove(b"e4")]);
    assert_eq!(tokens("10. e4"), vec![Token::SanMove(b"e4")]);
}

#[test]
fn comments_to_the_end_of_the_line() {
    assert_eq!(
        tokens("e4 ; the best move\ne5 % ignored\n"),
        vec![
            Token::SanMove(b"e4"),
            Token::EscapeComment(b" the best move"),
            Token::SanMove(b"e5"),
            Token::EscapeComment(b" ignored"),
        ]
    );
    assert_eq!(tokens(";last"), vec![Token::EscapeComment(b"last")]);
}

#[test]
fn commentary() {
    assert_eq!(
        tokens("e4 {king's pawn (best)} e5 {}"),
        vec![
            Token::SanMove(b"e4"),
            Token::Commentary(b"king's pawn (best)"),
            Token::SanMove(b"e5"),
            Token::Commentary(b""),
        ]
    );
}

#[test]
fn tag_pairs() {
    assert_eq!(
        tokens("[Event \"Casual game\"]\n[ Round \"1\" ]\n1. e4"),
        vec![
            Token::TagSymbol(b"Event"),
            Token::TagString(b"Casual game"),
            Token::TagSymbol(b"Round"),
            Token::TagString(b"1"),
            Token::SanMove(b"e4"),
        ]
    );
}

#[test]
fn tag_string_without_bracket() {
    assert_eq!(
        tokens("\"loose\" e4"),
        vec![Token::TagString(b"loose"), Token::SanMove(b"e4")]
    );
}

#[test]
fn glyphs() {
    assert_eq!(
        tokens("e4! e5?? Nf3!? $1 $142 Nc6 ?!"),
        vec![
            Token::SanMove(b"e4"),
            Token::MoveAnnotation(b"!"),
            Token::SanMove(b"e5"),
            Token::MoveAnnotation(b"??"),
            Token::SanMove(b"Nf3"),
            Token::MoveAnnotation(b"!?"),
            Token::Nag(b"1"),
            Token::Nag(b"142"),
            Token::SanMove(b"Nc6"),
            Token::MoveAnnotation(b"?!"),
        ]
    );
}

#[test]
fn tokens_end_where_no_rule_fits() {
    assert_eq!(tokens("e4 e5 & Nf3"), vec![Token::SanMove(b"e4"), Token::SanMove(b"e5")]);
    assert_eq!(tokens("e4 {open"), vec![Token::SanMove(b"e4")]);
    assert_eq!(tokens("e4 \"open"), vec![Token::SanMove(b"e4")]);
    assert_eq!(tokens("e4 $ e5"), vec![Token::SanMove(b"e4")]);
    assert_eq!(tokens("e4 ] e5"), vec![Token::SanMove(b"e4")]);
    assert_eq!(tokens("e4 12 e5"), vec![Token::SanMove(b"e4")]);
    assert_eq!(tokens("e4 e9"), vec![Token::SanMove(b"e4")]);
    assert_eq!(tokens("Xf3"), vec![]);
    assert_eq!(tokens("O-"), vec![]);
}

#[test]
fn no_match_is_read_again_at_the_same_place() {
    let mut iter = TokenIterator::new(b"  & e4");
    assert_eq!(iter.next(), None);
    assert_eq!(iter.next(), None);
}

#[test]
fn moves_need_no_space_between_them() {
    assert_eq!(
        tokens("e4e5(d4)Nf3"),
        vec![
            Token::SanMove(b"e4"),
            Token::SanMove(b"e5"),
            Token::StartVariation,
            Token::SanMove(b"d4"),
            Token::EndVariation,
            Token::SanMove(b"Nf3"),
        ]
    );
}

#[test]
fn longest_reading_of_a_piece_move_wins() {
    assert_eq!(tokens("Nd7d8"), vec![Token::SanMove(b"Nd7d8")]);
    assert_eq!(tokens("Nd7xd8"), vec![Token::SanMove(b"Nd7xd8")]);
    assert_eq!(tokens("Nd7 d8"), vec![Token::SanMove(b"Nd7"), Token::SanMove(b"d8")]);
    assert_eq!(tokens("Ndxd8"), vec![Token::SanMove(b"Ndxd8")]);
}

#[test]
fn promotion_needs_its_piece() {
    assert_eq!(tokens("e8=Q"), vec![Token::SanMove(b"e8=Q")]);
    assert_eq!(tokens("e8="), vec![Token::SanMove(b"e8")]);
    assert_eq!(tokens("e8=q"), vec![Token::SanMove(b"e8")]);
}

#[test]
fn newlines_are_whitespace() {
    assert_eq!(
        tokens("1. e4\n1... e5\r\n2. Nf3"),
        vec![Token::SanMove(b"e4"), Token::SanMove(b"e5"), Token::SanMove(b"Nf3")]
    );
}
