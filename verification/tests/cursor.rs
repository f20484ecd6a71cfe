use opening_trainer::pgn::movetree::{MoveTree, VariationIterator, Variations};
use opening_trainer::rules::{CorpusFault, Ply};
use shakmaty::san::San;
use shakmaty::{Chess, Position};
use std::rc::Rc;

fn variations(texts: &[&'static str]) -> Variations<'static> {
    let mut tree = MoveTree::new();
    for text in texts {
        tree.add_pgn(text);
    }
    Rc::new(tree).get_all_variations()
}

fn cursor(texts: &[&'static str], line: usize) -> VariationIterator<'static> {
    variations(texts).get(line).iter()
}

fn played(moves: &[&str]) -> Chess {
    let mut pos = Chess::default();
    for text in moves {
        let m = San::from_ascii(text.as_bytes()).unwrap().to_move(&pos).unwrap();
        pos = pos.play(&m).unwrap();
    }
    pos
}

fn pawn(from: u8, to: u8) -> Ply {
    Ply::Normal { role: 1, from, capture: None, to, promotion: None }
}

fn knight(from: u8, to: u8) -> Ply {
    Ply::Normal { role: 2, from, capture: None, to, promotion: None }
}

#[test]
fn cursor_starts_at_the_first_position() {
    let iter = cursor(&["e4 e5 Nf3"], 0);
    assert_eq!(*iter.position(), Chess::default());
    assert_eq!(iter.position().fullmoves().get(), 1);
    assert_eq!(iter.position().halfmoves(), 0);
}

#[test]
fn next_plays_the_line() {
    let mut iter = cursor(&["e4 e5 Nf3"], 0);
    assert_eq!(iter.next(), Ok(Some(pawn(12, 28))));
    assert_eq!(*iter.position(), played(&["e4"]));
    assert_eq!(iter.next(), Ok(Some(pawn(52, 36))));
    assert_eq!(*iter.position(), played(&["e4", "e5"]));
    assert_eq!(iter.next(), Ok(Some(knight(6, 21))));
    assert_eq!(*iter.position(), played(&["e4", "e5", "Nf3"]));
    assert_eq!(iter.position().fullmoves().get(), 2);
    assert_eq!(iter.position().halfmoves(), 1);
    assert_eq!(iter.next(), Ok(None));
    assert_eq!(iter.next(), Ok(None));
    assert_eq!(*iter.position(), played(&["e4", "e5", "Nf3"]));
}

#[test]
fn position_is_the_replay_of_the_moves_before_the_cursor() {
    let moves = ["d4", "Nf6", "c4", "e6", "Nc3", "Bb4", "e3", "O-O", "Bd3", "d5"];
    let mut iter = cursor(&["1. d4 Nf6 2. c4 e6 3. Nc3 Bb4 4. e3 O-O 5. Bd3 d5"], 0);
    for depth in 0..=moves.len() {
        assert_eq!(*iter.position(), played(&moves[..depth]));
        let _ = iter.next();
    }
}

#[test]
fn resolve_and_replay_agree_with_the_text() {
    let all = variations(&["e4 (d4 d5 c4) e5 Nf3 (Nc3 Nf6) Nf6 Nxe5"]);
    let expected: [&[&str]; 3] =
        [&["e4", "e5", "Nf3", "Nf6", "Nxe5"], &["e4", "e5", "Nc3", "Nf6"], &["d4", "d5", "c4"]];
    for k in 0..all.len() {
        let line = all.get(k);
        let mut iter = line.iter();
        let mut count = 0;
        while let Some(_) = iter.next().unwrap() {
            count += 1;
        }
        assert_eq!(count, line.resolve().len());
        assert_eq!(*iter.position(), played(expected[k]));
    }
}

#[test]
fn peek_does_not_move() {
    let mut iter = cursor(&["e4 e5"], 0);
    assert_eq!(iter.peek(), Ok(Some(pawn(12, 28))));
    assert_eq!(iter.peek(), Ok(Some(pawn(12, 28))));
    assert_eq!(*iter.position(), Chess::default());
    assert_eq!(iter.next(), Ok(Some(pawn(12, 28))));
    assert_eq!(iter.peek(), Ok(Some(pawn(52, 36))));
    assert_eq!(iter.next(), Ok(Some(pawn(52, 36))));
    assert_eq!(iter.peek(), Ok(None));
}

#[test]
fn empty_line() {
    let mut iter = cursor(&[], 0);
    assert_eq!(iter.peek(), Ok(None));
    assert_eq!(iter.peek_all(), Ok(vec![]));
    assert_eq!(iter.next(), Ok(None));
    assert_eq!(iter.try_switch(&pawn(12, 28)), Ok(false));
    assert_eq!(*iter.position(), Chess::default());
}

#[test]
fn peek_all_lists_the_moves_of_all_lines() {
    let texts = ["e4 e5 Nf3", "e4 e5 Nc3 Nf6", "d4 d5 c4", "e4 c5"];
    let mut iter = cursor(&texts, 0);
    assert_eq!(iter.peek_all(), Ok(vec![pawn(12, 28), pawn(11, 27)]));
    iter.next().unwrap();
    assert_eq!(iter.peek_all(), Ok(vec![pawn(52, 36), pawn(50, 34)]));
    iter.next().unwrap();
    assert_eq!(iter.peek_all(), Ok(vec![knight(6, 21), knight(1, 18)]));
    iter.next().unwrap();
    assert_eq!(iter.peek_all(), Ok(vec![]));
}

#[test]
fn reset_goes_back_to_the_start() {
    let mut iter = cursor(&["e4 e5 Nf3"], 0);
    iter.next().unwrap();
    iter.next().unwrap();
    iter.reset();
    assert_eq!(*iter.position(), Chess::default());
    assert_eq!(iter.position().fullmoves().get(), 1);
    assert_eq!(iter.next(), Ok(Some(pawn(12, 28))));
    iter.reset();
    iter.reset();
    assert_eq!(iter.peek(), Ok(Some(pawn(12, 28))));
}

#[test]
fn try_switch_to_a_known_move() {
    let texts = ["e4 e5 Nf3 Nc6", "e4 e5 Nc3 Nf6 f4", "e4 e5 Nc3 Nc6", "d4 d5"];
    let mut iter = cursor(&texts, 0);
    iter.next().unwrap();
    iter.next().unwrap();
    let before = iter.position().clone();
    assert_eq!(iter.try_switch(&knight(1, 18)), Ok(true));
    assert_eq!(*iter.position(), before);
    assert_eq!(iter.peek(), Ok(Some(knight(1, 18))));
    assert_eq!(iter.peek_all(), Ok(vec![knight(6, 21), knight(1, 18)]));
    assert_eq!(iter.next(), Ok(Some(knight(1, 18))));
    // The moves known now are those below the new move, oldest first.
    assert_eq!(iter.peek_all(), Ok(vec![knight(62, 45), knight(57, 42)]));
    // The line goes on to the first leaf below the new move.
    assert_eq!(iter.next(), Ok(Some(knight(62, 45))));
    assert_eq!(iter.next(), Ok(Some(pawn(13, 29))));
    assert_eq!(iter.next(), Ok(None));
    assert_eq!(*iter.position(), played(&["e4", "e5", "Nc3", "Nf6", "f4"]));
}

#[test]
fn try_switch_to_the_move_of_the_line_itself() {
    let texts = ["e4 e5 Nf3 Nc6 Bb5", "e4 e5 Nf3 Nf6"];
    let mut iter = cursor(&texts, 1);
    iter.next().unwrap();
    iter.next().unwrap();
    assert_eq!(iter.try_switch(&knight(6, 21)), Ok(true));
    assert_eq!(iter.next(), Ok(Some(knight(6, 21))));
    // Back on the first line below Nf3.
    assert_eq!(iter.next(), Ok(Some(knight(57, 42))));
}

#[test]
fn try_switch_at_the_first_move() {
    let texts = ["e4 e5", "d4 d5"];
    let mut iter = cursor(&texts, 0);
    assert_eq!(iter.try_switch(&pawn(11, 27)), Ok(true));
    assert_eq!(iter.next(), Ok(Some(pawn(11, 27))));
    assert_eq!(iter.next(), Ok(Some(pawn(51, 35))));
    assert_eq!(iter.next(), Ok(None));
}

#[test]
fn try_switch_to_an_unknown_move_changes_nothing() {
    let texts = ["e4 e5 Nf3", "e4 e5 Nc3"];
    let mut iter = cursor(&texts, 0);
    iter.next().unwrap();
    iter.next().unwrap();
    let before = iter.position().clone();
    // Legal, but not in the tree.
    assert_eq!(iter.try_switch(&pawn(11, 27)), Ok(false));
    // In the tree, but not at this depth.
    assert_eq!(iter.try_switch(&pawn(12, 28)), Ok(false));
    // Same squares as Nf3, but another piece.
    assert_eq!(
        iter.try_switch(&Ply::Normal { role: 3, from: 6, capture: None, to: 21, promotion: None }),
        Ok(false)
    );
    // Same squares as Nf3, but a capture.
    assert_eq!(
        iter.try_switch(&Ply::Normal {
            role: 2,
            from: 6,
            capture: Some(1),
            to: 21,
            promotion: None
        }),
        Ok(false)
    );
    assert_eq!(*iter.position(), before);
    assert_eq!(iter.peek(), Ok(Some(knight(6, 21))));
    assert_eq!(iter.next(), Ok(Some(knight(6, 21))));
    assert_eq!(iter.next(), Ok(None));
}

#[test]
fn try_switch_at_the_end_of_the_line() {
    let mut iter = cursor(&["e4"], 0);
    iter.next().unwrap();
    assert_eq!(iter.try_switch(&pawn(52, 36)), Ok(false));
    assert_eq!(iter.next(), Ok(None));
}

#[test]
fn illegal_move_is_a_fault_and_changes_nothing() {
    let mut iter = cursor(&["e4 e4 d4"], 0);
    assert_eq!(iter.next(), Ok(Some(pawn(12, 28))));
    assert_eq!(iter.peek(), Err(CorpusFault::IllegalMove));
    assert_eq!(iter.next(), Err(CorpusFault::IllegalMove));
    assert_eq!(iter.next(), Err(CorpusFault::IllegalMove));
    assert_eq!(*iter.position(), played(&["e4"]));
    assert_eq!(iter.peek_all(), Err(CorpusFault::IllegalMove));
    assert_eq!(iter.try_switch(&pawn(52, 36)), Err(CorpusFault::IllegalMove));
}

#[test]
fn null_move_is_illegal() {
    let mut iter = cursor(&["e4 -- d4"], 0);
    iter.next().unwrap();
    assert_eq!(iter.next(), Err(CorpusFault::IllegalMove));
}

#[test]
fn doubled_check_mark_is_no_notation() {
    let mut iter = cursor(&["e4 e5 Qh5 Nc6 Bc4 Nf6 Qxf7++"], 0);
    for _ in 0..6 {
        assert!(iter.next().unwrap().is_some());
    }
    assert_eq!(iter.next(), Err(CorpusFault::InvalidSan));
}

#[test]
fn fault_among_the_siblings() {
    // The second line has a move that cannot be played where it parts.
    let texts = ["e4 e5 Nf3", "e4 e5 Nf6"];
    let mut iter = cursor(&texts, 0);
    iter.next().unwrap();
    iter.next().unwrap();
    assert_eq!(iter.peek(), Ok(Some(knight(6, 21))));
    assert_eq!(iter.peek_all(), Err(CorpusFault::IllegalMove));
    assert_eq!(iter.try_switch(&knight(6, 21)), Err(CorpusFault::IllegalMove));
    assert_eq!(iter.next(), Ok(Some(knight(6, 21))));
}

#[test]
fn first_fault_among_the_siblings_wins() {
    let texts = ["e4 e5 Nf3", "e4 e5 Nf6", "e4 e5 --"];
    let mut iter = cursor(&texts, 0);
    iter.next().unwrap();
    iter.next().unwrap();
    assert_eq!(iter.peek_all(), Err(CorpusFault::IllegalMove));
    let texts = ["e4 e5 Nf3", "e4 e5 Qh5++", "e4 e5 Nf6"];
    let mut iter = cursor(&texts, 0);
    iter.next().unwrap();
    iter.next().unwrap();
    assert_eq!(iter.peek_all(), Err(CorpusFault::InvalidSan));
}

#[test]
fn cursors_on_one_tree_do_not_disturb_each_other() {
    let all = variations(&["e4 e5 Nf3", "d4 d5"]);
    let mut first = all.get(0).iter();
    let mut second = all.get(1).iter();
    let mut third = all.get(0).iter();
    first.next().unwrap();
    second.next().unwrap();
    assert_eq!(third.try_switch(&pawn(11, 27)), Ok(true));
    assert_eq!(*first.position(), played(&["e4"]));
    assert_eq!(*second.position(), played(&["d4"]));
    assert_eq!(first.next(), Ok(Some(pawn(52, 36))));
    assert_eq!(second.next(), Ok(Some(pawn(51, 35))));
    assert_eq!(third.next(), Ok(Some(pawn(11, 27))));
}

#[test]
fn cursor_from_a_later_position() {
    let all = variations(&["Nf6 c4 e6"]);
    let start = played(&["d4"]);
    let mut iter = all.get(0).iter_from(&start);
    assert_eq!(*iter.position(), start);
    assert_eq!(iter.next(), Ok(Some(knight(62, 45))));
    assert_eq!(iter.next(), Ok(Some(pawn(10, 26))));
    assert_eq!(*iter.position(), played(&["d4", "Nf6", "c4"]));
    iter.reset();
    assert_eq!(*iter.position(), start);
    assert_eq!(iter.position().fullmoves().get(), 1);
    assert_eq!(iter.peek(), Ok(Some(knight(62, 45))));
    // The same line cannot be played from the first position of a game.
    assert_eq!(all.get(0).iter().peek(), Err(CorpusFault::IllegalMove));
}

#[test]
fn check_of_a_line() {
    let all = variations(&["e4 e5 Nf3", "e4 e4", "d4 Qh5++", "d4 --"]);
    let start = Chess::default();
    assert_eq!(all.get(0).check_from(&start), None);
    assert_eq!(all.get(1).check_from(&start), Some(CorpusFault::IllegalMove));
    assert_eq!(all.get(2).check_from(&start), Some(CorpusFault::InvalidSan));
    assert_eq!(all.get(3).check_from(&start), Some(CorpusFault::IllegalMove));
    assert_eq!(variations(&[]).get(0).check_from(&start), None);
}

#[test]
fn check_of_all_lines() {
    let start = Chess::default();
    let sound = variations(&["e4 (d4 d5 c4) e5 Nf3 (Nc3 Nf6) Nf6 Nxe5"]);
    assert_eq!(sound.check_from(&start), None);
    assert_eq!(variations(&[]).check_from(&start), None);
    let all = variations(&["e4 e5 Nf3", "d4 d5", "d4 Qh5++", "c4 c4"]);
    assert_eq!(all.check_from(&start), Some(CorpusFault::InvalidSan));
    // Lines are checked in the order in which the tree lists them.
    let all = variations(&["e4 e5 Nf3", "c4 c4", "d4 d5", "d4 Qh5++"]);
    assert_eq!(all.check_from(&start), Some(CorpusFault::IllegalMove));
    // The lines that cannot be played from the first position can from another.
    let all = variations(&["e5 Nf3", "c5"]);
    assert_eq!(all.check_from(&start), Some(CorpusFault::IllegalMove));
    assert_eq!(all.check_from(&played(&["e4"])), None);
}

#[test]
fn start_of_the_cursor() {
    let iter = cursor(&["e4"], 0);
    assert_eq!(*iter.start(), Chess::default());
    let later = played(&["d4", "d5"]);
    let mut iter = variations(&["c4"]).get(0).iter_from(&later);
    iter.next().unwrap();
    assert_eq!(*iter.start(), later);
}
