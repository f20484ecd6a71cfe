use opening_trainer::pgn::movetree::{MoveTree, Variations};
use opening_trainer::rules::{CorpusFault, Ply};
use opening_trainer::components::board::Arrow;
use opening_trainer::trainer::{
    Effect, Player, Session, SharedGame, Stage, Step, UserAction, Wait, ERRORS_BEFORE_HINT,
    HINT_MILLIS, PACING_MILLIS,
};
use shakmaty::san::San;
use shakmaty::{Chess, Position};
use std::rc::Rc;

fn variations(texts: &[&'static str]) -> Variations<'static> {
    let mut tree = MoveTree::new();
    for text in texts {
        tree.add_pgn(text);
    }
    Rc::new(tree).get_all_variations()
}

fn session(texts: &[&'static str], line: usize) -> Session<'static> {
    Session::new(variations(texts), line).unwrap()
}

fn played(moves: &[&str]) -> Chess {
    let mut pos = Chess::default();
    for text in moves {
        let m = San::from_ascii(text.as_bytes()).unwrap().to_move(&pos).unwrap();
        pos = pos.play(&m).unwrap();
    }
    pos
}

fn pawn(from: u8, to: u8) -> Ply {
    Ply::Normal { role: 1, from, capture: None, to, promotion: None }
}

fn knight(from: u8, to: u8) -> Ply {
    Ply::Normal { role: 2, from, capture: None, to, promotion: None }
}

fn e4() -> Ply {
    pawn(12, 28)
}

fn e5() -> Ply {
    pawn(52, 36)
}

fn nf3() -> Ply {
    knight(6, 21)
}

fn step(effects: Vec<Effect>, wait: Wait, run: u64) -> Step {
    Step { effects, wait, run }
}

fn pacing() -> Wait {
    Wait::Pacing { millis: 150 }
}

#[test]
fn delays_and_threshold() {
    assert_eq!(PACING_MILLIS, 150);
    assert_eq!(HINT_MILLIS, 300);
    assert_eq!(ERRORS_BEFORE_HINT, 3);
}

#[test]
fn players_alternate() {
    assert_eq!(Player::Trainer.next(), Player::Student);
    assert_eq!(Player::Student.next(), Player::Trainer);
}

#[test]
fn arrow_goes_along_the_move() {
    assert_eq!(Arrow::of_ply(&e4()), Some(Arrow(12, 28)));
    assert_eq!(Arrow::of_ply(&Ply::EnPassant { from: 35, to: 44 }), Some(Arrow(35, 44)));
    assert_eq!(Arrow::of_ply(&Ply::Castle { king: 4, rook: 7 }), Some(Arrow(4, 7)));
    assert_eq!(Arrow::of_ply(&Ply::Put { role: 2, to: 20 }), None);
}

#[test]
fn game_starts_with_the_trainer() {
    let all = variations(&["e4 e5 Nf3"]);
    let game = SharedGame::new(&all.get(0));
    assert_eq!(game.current_player(), Player::Trainer);
    assert!(!game.is_explore());
    assert_eq!(*game.position(), Chess::default());
    assert_eq!(game.peek(), Ok(Some(e4())));
}

#[test]
fn game_passes_the_turn_with_every_move() {
    let all = variations(&["e4 e5"]);
    let mut game = SharedGame::new(&all.get(0));
    assert_eq!(game.next(), Ok(Some(e4())));
    assert_eq!(game.current_player(), Player::Student);
    assert_eq!(game.next(), Ok(Some(e5())));
    assert_eq!(game.current_player(), Player::Trainer);
    assert_eq!(game.next(), Ok(None));
    assert_eq!(game.current_player(), Player::Student);
}

#[test]
fn game_keeps_the_turn_on_a_fault() {
    let all = variations(&["e4 e4"]);
    let mut game = SharedGame::new(&all.get(0));
    game.next().unwrap();
    assert_eq!(game.next(), Err(CorpusFault::IllegalMove));
    assert_eq!(game.current_player(), Player::Student);
}

#[test]
fn game_reset_and_start_variation() {
    let all = variations(&["e4 e5", "d4 d5"]);
    let mut game = SharedGame::new(&all.get(0));
    game.toggle_explore();
    game.next().unwrap();
    game.reset();
    assert_eq!(game.current_player(), Player::Trainer);
    assert!(game.is_explore());
    assert_eq!(*game.position(), Chess::default());
    assert_eq!(game.peek(), Ok(Some(e4())));
    game.next().unwrap();
    game.start_variation(&all.get(1));
    assert_eq!(game.current_player(), Player::Trainer);
    assert!(game.is_explore());
    assert_eq!(*game.position(), Chess::default());
    assert_eq!(game.peek(), Ok(Some(pawn(11, 27))));
    game.toggle_explore();
    assert!(!game.is_explore());
}

#[test]
fn game_peeks_and_switches() {
    let all = variations(&["e4 e5", "d4 d5"]);
    let mut game = SharedGame::new(&all.get(0));
    assert_eq!(game.peek_all(), Ok(vec![e4(), pawn(11, 27)]));
    assert_eq!(game.try_switch(&pawn(10, 26)), Ok(false));
    assert_eq!(game.try_switch(&pawn(11, 27)), Ok(true));
    assert_eq!(game.current_player(), Player::Trainer);
    assert_eq!(game.next(), Ok(Some(pawn(11, 27))));
    assert_eq!(*game.position(), played(&["d4"]));
}

#[test]
fn session_scenario() {
    let mut session = session(&["e4 e5 Nf3"], 0);
    assert_eq!(session.current_stage(), Stage::Fresh);
    assert_eq!(session.current_run(), 0);

    assert_eq!(session.start(), step(vec![Effect::Init { explore: false }], pacing(), 0));
    assert_eq!(session.current_stage(), Stage::TrainerPacing);

    // The trainer plays e4 and hints at e5.
    assert_eq!(
        session.timer_elapsed(0, true),
        step(
            vec![Effect::PlayMove { ply: e4(), arrows: vec![Arrow(12, 28), Arrow(52, 36)] }],
            Wait::UserMove,
            0
        )
    );
    assert_eq!(session.current_stage(), Stage::StudentTurn { expected: e5(), errors: 0 });
    assert_eq!(*session.current_game().position(), played(&["e4"]));

    // The student finds e5, and the trainer's turn comes.
    assert_eq!(
        session.user_move(0, &e5()),
        step(vec![Effect::PlayMove { ply: e5(), arrows: vec![] }], pacing(), 0)
    );
    assert_eq!(session.current_stage(), Stage::TrainerPacing);

    // The trainer plays Nf3, the last move: no hint, and the line is over.
    assert_eq!(
        session.timer_elapsed(0, true),
        step(
            vec![Effect::PlayMove { ply: nf3(), arrows: vec![Arrow(6, 21)] }],
            Wait::Idle,
            0
        )
    );
    assert_eq!(session.current_stage(), Stage::Finished);
    assert_eq!(*session.current_game().position(), played(&["e4", "e5", "Nf3"]));

    // Nothing is awaited any more.
    assert_eq!(session.user_move(0, &e5()), step(vec![], Wait::Unchanged, 0));
    assert_eq!(session.timer_elapsed(0, true), step(vec![], Wait::Unchanged, 0));
}

#[test]
fn third_wrong_move_brings_the_hint() {
    let mut session = session(&["e4 e5 Nf3"], 0);
    session.start();
    session.timer_elapsed(0, false);
    let wrong = pawn(51, 35);

    assert_eq!(session.user_move(0, &wrong), step(vec![Effect::Shake], Wait::UserMove, 0));
    assert_eq!(session.current_stage(), Stage::StudentTurn { expected: e5(), errors: 1 });
    assert_eq!(session.user_move(0, &nf3()), step(vec![Effect::Shake], Wait::UserMove, 0));
    assert_eq!(session.current_stage(), Stage::StudentTurn { expected: e5(), errors: 2 });
    assert_eq!(
        session.user_move(0, &wrong),
        step(vec![Effect::Shake], Wait::Pacing { millis: 300 }, 0)
    );
    assert_eq!(session.current_stage(), Stage::HintPacing { expected: e5(), errors: 3 });

    // A move during the delay is not awaited.
    assert_eq!(session.user_move(0, &e5()), step(vec![], Wait::Unchanged, 0));

    // The hint shows e5, and nothing has been played.
    assert_eq!(
        session.timer_elapsed(0, false),
        step(vec![Effect::UpdateArrows { arrows: vec![Arrow(52, 36)] }], Wait::UserMove, 0)
    );
    assert_eq!(session.current_stage(), Stage::StudentTurn { expected: e5(), errors: 3 });
    assert_eq!(*session.current_game().position(), played(&["e4"]));

    // Further errors bring no further hint.
    assert_eq!(session.user_move(0, &wrong), step(vec![Effect::Shake], Wait::UserMove, 0));
    assert_eq!(session.current_stage(), Stage::StudentTurn { expected: e5(), errors: 4 });

    // The next attempt is right.
    assert_eq!(
        session.user_move(0, &e5()),
        step(vec![Effect::PlayMove { ply: e5(), arrows: vec![] }], pacing(), 0)
    );
}

#[test]
fn errors_are_counted_anew_in_every_turn() {
    let mut session = session(&["e4 e5 Nf3 Nc6"], 0);
    session.start();
    session.timer_elapsed(0, false);
    session.user_move(0, &nf3());
    session.user_move(0, &nf3());
    session.user_move(0, &e5());
    session.timer_elapsed(0, false);
    assert_eq!(
        session.current_stage(),
        Stage::StudentTurn { expected: knight(57, 42), errors: 0 }
    );
}

#[test]
fn hints_can_be_switched_off() {
    let mut session = session(&["e4 e5"], 0);
    session.start();
    assert_eq!(
        session.timer_elapsed(0, false),
        step(vec![Effect::PlayMove { ply: e4(), arrows: vec![Arrow(12, 28)] }], Wait::UserMove, 0)
    );
}

#[test]
fn empty_line_is_over_at_once() {
    let mut session = session(&[], 0);
    assert_eq!(session.start(), step(vec![Effect::Init { explore: false }], Wait::Idle, 0));
    assert_eq!(session.current_stage(), Stage::Finished);
}

#[test]
fn restart_cancels_the_pending_move() {
    let mut session = session(&["e4 e5 Nf3"], 0);
    session.start();
    session.timer_elapsed(0, true);
    session.user_move(0, &nf3());
    session.user_move(0, &nf3());
    session.user_move(0, &e5());
    // The trainer's pacing delay for Nf3 is running.
    assert_eq!(session.current_stage(), Stage::TrainerPacing);

    assert_eq!(session.restart(), step(vec![Effect::Init { explore: false }], pacing(), 1));
    assert_eq!(session.current_run(), 1);
    assert_eq!(*session.current_game().position(), Chess::default());
    assert_eq!(session.current_game().current_player(), Player::Trainer);

    // The timer of the run that is over comes in: nothing is played.
    assert_eq!(session.timer_elapsed(0, true), step(vec![], Wait::Unchanged, 1));
    assert_eq!(*session.current_game().position(), Chess::default());
    assert_eq!(session.current_stage(), Stage::TrainerPacing);
    // So does a move of the student from that run.
    assert_eq!(session.user_move(0, &e5()), step(vec![], Wait::Unchanged, 1));

    // The timer of the new run plays the first move of the line.
    assert_eq!(
        session.timer_elapsed(1, true),
        step(
            vec![Effect::PlayMove { ply: e4(), arrows: vec![Arrow(12, 28), Arrow(52, 36)] }],
            Wait::UserMove,
            1
        )
    );
    // No errors are carried over.
    assert_eq!(session.current_stage(), Stage::StudentTurn { expected: e5(), errors: 0 });
}

#[test]
fn restart_in_the_students_turn_forgets_the_errors() {
    let mut session = session(&["e4 e5 Nf3"], 0);
    session.start();
    session.timer_elapsed(0, true);
    session.user_move(0, &nf3());
    session.user_move(0, &nf3());
    session.restart();
    session.timer_elapsed(1, true);
    assert_eq!(session.current_stage(), Stage::StudentTurn { expected: e5(), errors: 0 });
    // Two more errors bring no hint: the count started anew.
    assert_eq!(session.user_move(1, &nf3()), step(vec![Effect::Shake], Wait::UserMove, 1));
    assert_eq!(session.user_move(1, &nf3()), step(vec![Effect::Shake], Wait::UserMove, 1));
}

#[test]
fn restart_cancels_the_pending_hint() {
    let mut session = session(&["e4 e5"], 0);
    session.start();
    session.timer_elapsed(0, true);
    for _ in 0..3 {
        session.user_move(0, &nf3());
    }
    assert_eq!(session.current_stage(), Stage::HintPacing { expected: e5(), errors: 3 });
    session.restart();
    assert_eq!(session.timer_elapsed(0, true), step(vec![], Wait::Unchanged, 1));
}

#[test]
fn next_level_takes_up_the_drawn_line() {
    let mut session = session(&["e4 e5", "d4 d5"], 0);
    assert_eq!(session.line_count(), 2);
    session.start();
    session.timer_elapsed(0, true);
    assert_eq!(
        session.next_level(1),
        step(vec![Effect::Init { explore: false }], pacing(), 1)
    );
    assert_eq!(*session.current_game().position(), Chess::default());
    assert_eq!(session.current_game().peek(), Ok(Some(pawn(11, 27))));
    assert_eq!(
        session.timer_elapsed(1, true),
        step(
            vec![Effect::PlayMove { ply: pawn(11, 27), arrows: vec![Arrow(11, 27), Arrow(51, 35)] }],
            Wait::UserMove,
            1
        )
    );
}

#[test]
fn exploration() {
    let mut session = session(&["e4 e5 Nf3", "e4 c5", "d4 d5"], 0);
    session.start();
    assert_eq!(
        session.toggle_explore(),
        step(
            vec![
                Effect::Init { explore: true },
                Effect::UpdateArrows { arrows: vec![Arrow(12, 28), Arrow(11, 27)] },
            ],
            Wait::UserMove,
            1
        )
    );
    assert_eq!(session.current_stage(), Stage::Exploring);

    // A move that the tree does not know.
    assert_eq!(session.user_move(1, &pawn(10, 26)), step(vec![Effect::Shake], Wait::UserMove, 1));
    assert_eq!(*session.current_game().position(), Chess::default());

    // A move that it knows: it is played, and the moves known then are shown.
    assert_eq!(
        session.user_move(1, &e4()),
        step(
            vec![
                Effect::PlayMove { ply: e4(), arrows: vec![] },
                Effect::UpdateArrows { arrows: vec![Arrow(52, 36), Arrow(50, 34)] },
            ],
            Wait::UserMove,
            1
        )
    );
    assert_eq!(
        session.user_move(1, &pawn(50, 34)),
        step(
            vec![
                Effect::PlayMove { ply: pawn(50, 34), arrows: vec![] },
                Effect::UpdateArrows { arrows: vec![] },
            ],
            Wait::UserMove,
            1
        )
    );
    assert_eq!(*session.current_game().position(), played(&["e4", "c5"]));

    // At the end of the line every move is unknown.
    assert_eq!(session.user_move(1, &nf3()), step(vec![Effect::Shake], Wait::UserMove, 1));
    // Timers mean nothing while exploring.
    assert_eq!(session.timer_elapsed(1, true), step(vec![], Wait::Unchanged, 1));
}

#[test]
fn leaving_exploration_gives_the_move_to_the_trainer() {
    let mut session = session(&["e4 e5 Nf3 Nc6"], 0);
    session.start();
    session.toggle_explore();
    session.user_move(1, &e4());
    assert_eq!(session.current_game().current_player(), Player::Student);
    assert_eq!(
        session.toggle_explore(),
        step(vec![Effect::Init { explore: false }], pacing(), 2)
    );
    assert_eq!(session.current_game().current_player(), Player::Trainer);
    assert_eq!(*session.current_game().position(), played(&["e4"]));
    assert_eq!(
        session.timer_elapsed(2, false),
        step(vec![Effect::PlayMove { ply: e5(), arrows: vec![Arrow(52, 36)] }], Wait::UserMove, 2)
    );
}

#[test]
fn user_action_draws_a_line_of_the_session() {
    let mut session = session(&["e4 e5", "d4 d5", "c4 c5"], 0);
    let mut rng = rand::thread_rng();
    session.start();
    let firsts = [e4(), pawn(11, 27), pawn(10, 26)];
    let mut seen = [false; 3];
    for run in 1..=100 {
        let answer = session.user_action(UserAction::NextLevel, &mut rng);
        assert_eq!(answer.run, run);
        assert_eq!(answer.wait, pacing());
        assert_eq!(*session.current_game().position(), Chess::default());
        let first = session.current_game().peek().unwrap().unwrap();
        seen[firsts.iter().position(|known| *known == first).unwrap()] = true;
    }
    assert_eq!(seen, [true; 3]);
}

#[test]
fn user_action_restart_and_toggle() {
    let mut session = session(&["e4 e5"], 0);
    let mut rng = rand::thread_rng();
    session.start();
    session.timer_elapsed(0, true);
    assert_eq!(
        session.user_action(UserAction::Restart, &mut rng),
        step(vec![Effect::Init { explore: false }], pacing(), 1)
    );
    assert_eq!(*session.current_game().position(), Chess::default());
    let answer = session.user_action(UserAction::ToggleExplore, &mut rng);
    assert_eq!(answer.run, 2);
    assert_eq!(answer.wait, Wait::UserMove);
    assert!(session.current_game().is_explore());
}

#[test]
fn session_on_a_random_line() {
    let mut rng = rand::thread_rng();
    let mut session =
        Session::with_random_line(variations(&["e4 e5", "d4 d5"]), &mut rng).unwrap();
    assert_eq!(session.current_stage(), Stage::Fresh);
    assert_eq!(session.current_run(), 0);
    let first = session.current_game().peek().unwrap().unwrap();
    assert!(first == e4() || first == pawn(11, 27));
    assert_eq!(session.start(), step(vec![Effect::Init { explore: false }], pacing(), 0));
}

#[test]
fn fault_in_a_line_is_found_before_the_first_step() {
    // The first move of the line reads, the second does not.
    assert_eq!(Session::new(variations(&["e4 e4"]), 0).err(), Some(CorpusFault::IllegalMove));
    assert_eq!(Session::new(variations(&["e5"]), 0).err(), Some(CorpusFault::IllegalMove));
    assert_eq!(Session::new(variations(&["Qh5++"]), 0).err(), Some(CorpusFault::InvalidSan));
    // Only the last move of a long line does not read.
    let long = "e4 e5 Nf3 Nc6 Bb5 a6 Ba4 Nf6 O-O Be7 Re1 b5 Bb3 d6 c3 O-O h3 Nb8 d4 Nbd7 Nxd7";
    assert_eq!(Session::new(variations(&[long]), 0).err(), Some(CorpusFault::IllegalMove));
}

#[test]
fn fault_in_a_line_that_is_not_drawn_is_found_too() {
    let texts = ["e4 e5 Nf3", "d4 d5 c4 dxc4 e3 b5 a4 c6 axb5 cxb5 Qf3 Qxf3"];
    assert_eq!(Session::new(variations(&texts), 0).err(), Some(CorpusFault::IllegalMove));
    // An aside that cannot be played where it parts.
    let texts = ["e4 e5 (Nf6 Nf3) Nf3 (Ke2 Ke7 Ke1 Ke8 Ke3)"];
    assert_eq!(Session::new(variations(&texts), 0).err(), Some(CorpusFault::IllegalMove));
    let mut rng = rand::thread_rng();
    for _ in 0..20 {
        let made = Session::with_random_line(variations(&["e4 e5", "d4 d5", "c4 c4"]), &mut rng);
        assert_eq!(made.err(), Some(CorpusFault::IllegalMove));
    }
}

#[test]
fn first_fault_in_the_order_of_the_lines_wins() {
    let texts = ["e4 e5", "d4 Qh5++", "c4 c4"];
    assert_eq!(Session::new(variations(&texts), 0).err(), Some(CorpusFault::InvalidSan));
    let texts = ["e4 e5", "c4 c4", "d4 Qh5++"];
    assert_eq!(Session::new(variations(&texts), 0).err(), Some(CorpusFault::IllegalMove));
}

#[test]
fn session_from_a_later_position() {
    let start = played(&["e4"]);
    let mut session = Session::new_from(variations(&["e5 Nf3", "c5"]), 1, &start).unwrap();
    assert_eq!(*session.current_game().position(), start);
    assert_eq!(session.start(), step(vec![Effect::Init { explore: false }], pacing(), 0));
    assert_eq!(
        session.timer_elapsed(0, true),
        step(
            vec![Effect::PlayMove { ply: pawn(50, 34), arrows: vec![Arrow(50, 34)] }],
            Wait::Idle,
            0
        )
    );
    // Another line is played from the same position.
    session.next_level(0);
    assert_eq!(*session.current_game().position(), start);
    assert_eq!(session.current_game().peek(), Ok(Some(e5())));
    // From the first position of a game these lines cannot be played.
    assert_eq!(
        Session::new(variations(&["e5 Nf3", "c5"]), 0).err(),
        Some(CorpusFault::IllegalMove)
    );
}

#[test]
fn sound_session_never_faults() {
    let texts = ["e4 (d4 d5 c4) e5 Nf3 (Nc3 Nf6) Nf6 Nxe5", "e4 c5 Nf3 d6"];
    let mut session = session(&texts, 0);
    let mut rng = rand::thread_rng();
    let mut step = session.start();
    for round in 0..400u32 {
        step = match step.wait {
            Wait::Pacing { .. } => session.timer_elapsed(step.run, round % 2 == 0),
            Wait::UserMove => {
                let known = session.current_game().peek_all().unwrap();
                if round % 3 == 0 || known.is_empty() {
                    session.user_action(UserAction::ToggleExplore, &mut rng)
                } else {
                    let run = session.current_run();
                    session.user_move(run, &known[(round as usize) % known.len()])
                }
            }
            Wait::Idle => session.user_action(UserAction::NextLevel, &mut rng),
            Wait::Unchanged => session.user_action(UserAction::Restart, &mut rng),
        };
    }
}

#[test]
fn after_a_switch_the_moves_below_the_new_move_are_known() {
    let all = variations(&["e4 e5 Nf3 Nc6", "e4 e5 Nc3 Nf6 f4", "e4 e5 Nc3 Nc6"]);
    let mut game = SharedGame::new(&all.get(0));
    game.next().unwrap();
    game.next().unwrap();
    let before = game.position().clone();
    assert_eq!(game.peek_all(), Ok(vec![nf3(), knight(1, 18)]));
    assert_eq!(game.try_switch(&knight(1, 18)), Ok(true));
    assert_eq!(*game.position(), before);
    assert_eq!(game.peek(), Ok(Some(knight(1, 18))));
    assert_eq!(game.next(), Ok(Some(knight(1, 18))));
    assert_eq!(game.peek_all(), Ok(vec![knight(62, 45), knight(57, 42)]));
}
