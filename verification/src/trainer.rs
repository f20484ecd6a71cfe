//! The training session: a game on one line of the tree, in which the trainer
//! and the student move in turn, and the machine that decides what happens
//! when a timer runs out, the student moves, or the student asks for
//! something else.
//!
//! The machine waits for nothing itself. Every step answers with the signals
//! to show and with what to wait for next; whoever drives it shows the
//! signals, waits, and hands back what came.
//!
//! A session is made only after every line that it can draw was played to
//! its end once. A line that cannot be played is a fault that is found then,
//! before anything is shown; no step of a session meets one.

use crate::components::board::Arrow;
use crate::pgn::movetree::{
    lemma_read_all_index, spans_of, Variation, VariationIterator, Variations,
};
use crate::pgn::tree::Node;
use crate::rules::{
    copy_position, first_fault, move_details, start_position, CorpusFault, Ply,
};
use vstd::pervasive::unreached;
use vstd::prelude::*;

verus! {

/// How long the trainer waits before it moves, in milliseconds.
pub const PACING_MILLIS: u32 = 150;

/// How long after the last wrong move the hint appears, in milliseconds.
pub const HINT_MILLIS: u32 = 300;

/// The number of wrong moves in one turn after which the hint appears.
pub const ERRORS_BEFORE_HINT: u32 = 3;

/// The two sides of a training game.
#[derive(Clone, Copy, PartialEq, Eq, Structural, Debug)]
pub enum Player {
    Student,
    Trainer,
}

impl Player {
    /// The other side.
    pub open spec fn other(self) -> Player {
        match self {
            Player::Student => Player::Trainer,
            Player::Trainer => Player::Student,
        }
    }

    /// The side that moves after this one.
    pub fn next(self) -> (after: Player)
        ensures
            after == self.other(),
    {
        match self {
            Player::Student => Player::Trainer,
            Player::Trainer => Player::Student,
        }
    }
}

/// What the student can ask for at any time.
#[derive(Clone, Copy, PartialEq, Eq, Structural, Debug)]
pub enum UserAction {
    /// Play the same line again from its start.
    Restart,
    /// Play another line, drawn at random.
    NextLevel,
    /// Switch free exploration on or off.
    ToggleExplore,
}

/// The arrows along all of `plies`, where each of them has one.
pub open spec fn arrows_along(plies: Seq<Ply>) -> Option<Seq<Arrow>> {
    if forall|k: int| 0 <= k < plies.len() ==> (#[trigger] plies[k]).origin() is Some {
        Some(Seq::new(plies.len(), |k: int| Arrow(plies[k].origin()->0, plies[k].target())))
    } else {
        None
    }
}

/// All of the arrows lie on the board.
pub open spec fn all_in_range(arrows: Seq<Arrow>) -> bool {
    forall|k: int| 0 <= k < arrows.len() ==> (#[trigger] arrows[k]).in_range()
}

/// The arrows along all of `plies`, or `None` if one of them has none.
fn arrows_of(plies: &Vec<Ply>) -> (arrows: Option<Vec<Arrow>>)
    requires
        forall|k: int| 0 <= k < plies@.len() ==> (#[trigger] plies@[k]).in_range(),
    ensures
        match arrows_along(plies@) {
            Some(all) => arrows matches Some(found) && found@ == all,
            None => arrows is None,
        },
        arrows matches Some(found) ==> all_in_range(found@),
{
    let mut arrows: Vec<Arrow> = Vec::with_capacity(plies.len());
    let mut k: usize = 0;
    while k < plies.len()
        invariant
            k <= plies@.len(),
            arrows@.len() == k,
            forall|j: int| 0 <= j < k ==> (#[trigger] plies@[j]).origin() is Some,
            forall|j: int|
                0 <= j < k ==> #[trigger] arrows@[j] == Arrow(
                    plies@[j].origin()->0,
                    plies@[j].target(),
                ),
            forall|j: int| 0 <= j < plies@.len() ==> (#[trigger] plies@[j]).in_range(),
            all_in_range(arrows@),
        decreases plies@.len() - k,
    {
        match Arrow::of_ply(&plies[k]) {
            Some(arrow) => {
                arrows.push(arrow);
            },
            None => {
                return None;
            },
        }
        k = k + 1;
    }
    proof {
        assert(arrows@ =~= arrows_along(plies@)->0);
    }
    Some(arrows)
}

/// A game on one line: the cursor on the line, whose turn it is, and
/// whether the student explores freely.
pub struct SharedGame<'source> {
    iter: VariationIterator<'source>,
    last_turn: Player,
    explore: bool,
}

impl<'source> SharedGame<'source> {
    /// The cursor on the line that is played.
    pub closed spec fn cursor(&self) -> VariationIterator<'source> {
        self.iter
    }

    /// The side that moves next.
    pub closed spec fn turn(&self) -> Player {
        self.last_turn
    }

    /// Whether the student explores freely.
    pub closed spec fn exploring(&self) -> bool {
        self.explore
    }

    /// The cursor of the game is sound.
    pub open spec fn wf(&self) -> bool {
        self.cursor().wf()
    }

    /// Both games stand at the same place of the same line, with the same
    /// side to move and in the same mode.
    pub open spec fn same_as(&self, other: SharedGame<'source>) -> bool {
        &&& self.cursor().same_as(other.cursor())
        &&& self.turn() == other.turn()
        &&& self.exploring() == other.exploring()
    }

    /// A game at the start of a line. The trainer moves first.
    pub fn new(variation: &Variation<'source>) -> (game: Self)
        requires
            variation.wf(),
        ensures
            game.wf(),
            game.cursor().tree() == variation.tree(),
            game.cursor().nodes() == variation.tree().path(variation.leaf()),
            game.cursor().depth() == 0,
            game.cursor().replayed() == game.cursor().origin(),
            game.turn() == Player::Trainer,
            !game.exploring(),
    {
        SharedGame { iter: variation.iter(), last_turn: Player::Trainer, explore: false }
    }

    /// A game at the start of a line, with `start` as the position before the
    /// first move. The trainer moves first.
    pub fn new_from(variation: &Variation<'source>, start: &shakmaty::Chess) -> (game: Self)
        requires
            variation.wf(),
        ensures
            game.wf(),
            game.cursor().tree() == variation.tree(),
            game.cursor().nodes() == variation.tree().path(variation.leaf()),
            game.cursor().depth() == 0,
            game.cursor().origin() == *start,
            game.cursor().replayed() == *start,
            game.turn() == Player::Trainer,
            !game.exploring(),
    {
        let iter = variation.iter_from(start);
        SharedGame { iter, last_turn: Player::Trainer, explore: false }
    }

    /// The side that moves next.
    pub fn current_player(&self) -> (player: Player)
        ensures
            player == self.turn(),
    {
        self.last_turn
    }

    /// Whether the student explores freely.
    pub fn is_explore(&self) -> (explore: bool)
        ensures
            explore == self.exploring(),
    {
        self.explore
    }

    /// Goes back to the start of the line. The trainer moves first again.
    pub fn reset(&mut self)
        requires
            old(self).wf(),
        ensures
            final(self).wf(),
            final(self).cursor().tree() == old(self).cursor().tree(),
            final(self).cursor().nodes() == old(self).cursor().nodes(),
            final(self).cursor().origin() == old(self).cursor().origin(),
            final(self).cursor().depth() == 0,
            final(self).cursor().replayed() == final(self).cursor().origin(),
            final(self).turn() == Player::Trainer,
            final(self).exploring() == old(self).exploring(),
    {
        self.iter.reset();
        self.last_turn = Player::Trainer;
    }

    /// Takes up another line at its start, with the same position before the
    /// first move as before. The trainer moves first.
    pub fn start_variation(&mut self, variation: &Variation<'source>)
        requires
            variation.wf(),
        ensures
            final(self).wf(),
            final(self).cursor().tree() == variation.tree(),
            final(self).cursor().nodes() == variation.tree().path(variation.leaf()),
            final(self).cursor().depth() == 0,
            final(self).cursor().origin() == old(self).cursor().origin(),
            final(self).cursor().replayed() == final(self).cursor().origin(),
            final(self).turn() == Player::Trainer,
            final(self).exploring() == old(self).exploring(),
    {
        let start = copy_position(self.iter.start());
        self.iter = variation.iter_from(&start);
        self.last_turn = Player::Trainer;
    }

    /// Plays the next move of the line and passes the turn to the other side;
    /// the turn passes at the end of the line too, where no move is played.
    /// A move that cannot be played is a fault, and nothing changes.
    pub fn next(&mut self) -> (played: Result<Option<Ply>, CorpusFault>)
        requires
            old(self).wf(),
        ensures
            final(self).wf(),
            played == old(self).cursor().ahead(),
            played matches Ok(Some(ply)) ==> ply.in_range(),
            final(self).exploring() == old(self).exploring(),
            played is Err ==> final(self).same_as(*old(self)),
            played is Ok ==> final(self).turn() == old(self).turn().other(),
            played matches Ok(None) ==> final(self).cursor().same_as(old(self).cursor()),
            played matches Ok(Some(_)) ==> final(self).cursor().stepped_from(
                old(self).cursor(),
                old(self).cursor().move_ahead(),
            ),
    {
        let played = self.iter.next();
        if played.is_ok() {
            self.last_turn = self.last_turn.next();
        }
        played
    }

    /// The next move of the line, which is not played.
    pub fn peek(&self) -> (ahead: Result<Option<Ply>, CorpusFault>)
        requires
            self.wf(),
        ensures
            ahead == self.cursor().ahead(),
            ahead matches Ok(Some(ply)) ==> ply.in_range(),
    {
        self.iter.peek()
    }

    /// The moves that the tree knows from the position of the game.
    pub fn peek_all(&self) -> (ahead: Result<Vec<Ply>, CorpusFault>)
        requires
            self.wf(),
        ensures
            match self.cursor().all_ahead() {
                Ok(plies) => ahead matches Ok(found) && found@ == plies,
                Err(fault) => ahead matches Err(found) && found == fault,
            },
            ahead matches Ok(found) ==> forall|k: int|
                0 <= k < found@.len() ==> (#[trigger] found@[k]).in_range(),
    {
        self.iter.peek_all()
    }

    /// Turns the game onto the line that goes on with move `m`, if the tree
    /// knows that move from the position of the game.
    pub fn try_switch(&mut self, m: &Ply) -> (switched: Result<bool, CorpusFault>)
        requires
            old(self).wf(),
        ensures
            final(self).wf(),
            final(self).turn() == old(self).turn(),
            final(self).exploring() == old(self).exploring(),
            final(self).cursor().tree() == old(self).cursor().tree(),
            final(self).cursor().origin() == old(self).cursor().origin(),
            final(self).cursor().depth() == old(self).cursor().depth(),
            final(self).cursor().replayed() == old(self).cursor().replayed(),
            final(self).cursor().switched_from(old(self).cursor(), *m, switched),
    {
        self.iter.try_switch(m)
    }

    /// What taking the move `m` in free exploration makes of the game
    /// `before` and answers. A fault among the moves known at the position
    /// is answered as it is. Else the answer says whether `m` is one of those
    /// moves: if it is, the game has turned onto its line and played it, and
    /// the turn has passed. In every other case the game stays as it was.
    pub open spec fn explored(
        &self,
        before: SharedGame<'source>,
        m: Ply,
        taken: Result<bool, CorpusFault>,
    ) -> bool {
        match before.cursor().all_ahead() {
            Err(fault) => {
                &&& taken matches Err(found)
                &&& found == fault
                &&& self.same_as(before)
            },
            Ok(plies) => {
                &&& taken matches Ok(done)
                &&& done == plies.contains(m)
                &&& !done ==> self.same_as(before)
                &&& done ==> {
                    &&& self.turn() == before.turn().other()
                    &&& exists|k: int| #[trigger]
                        self.cursor().explored_from(before.cursor(), plies, m, k)
                }
            },
        }
    }

    /// Takes a move of the student in free exploration: if the tree knows the
    /// move from the position of the game, the game turns onto its line and
    /// plays it, and the turn passes.
    fn explore_move(&mut self, m: &Ply) -> (taken: Result<Option<Ply>, CorpusFault>)
        requires
            old(self).wf(),
        ensures
            final(self).wf(),
            final(self).exploring() == old(self).exploring(),
            final(self).explored(
                *old(self),
                *m,
                match taken {
                    Ok(played) => Ok(played is Some),
                    Err(fault) => Err(fault),
                },
            ),
            taken matches Ok(Some(ply)) ==> ply == *m && ply.in_range(),
    {
        let ghost before = self.iter;
        let ghost game = *self;
        match self.iter.try_switch(m) {
            Err(fault) => {
                proof {
                    assert(self.explored(game, *m, Err(fault)));
                }
                Err(fault)
            },
            Ok(false) => {
                proof {
                    assert(self.explored(game, *m, Ok(false)));
                }
                Ok(None)
            },
            Ok(true) => {
                let ghost plies = before.all_ahead()->Ok_0;
                let ghost turned = self.iter;
                let ghost k = choose|k: int| #[trigger] turned.turned_from(before, plies, *m, k);
                proof {
                    let texts = spans_of(before.tree(), before.siblings());
                    lemma_read_all_index(before.replayed(), texts, k);
                    assert(turned.line()[turned.depth() as int] == texts[k]);
                }
                match self.iter.next() {
                    Ok(Some(ply)) => {
                        self.last_turn = self.last_turn.next();
                        proof {
                            assert(self.iter.explored_from(before, plies, *m, k));
                            assert(plies[k] == *m);
                            assert(plies.contains(*m));
                            assert(self.cursor().explored_from(game.cursor(), plies, *m, k));
                            assert(self.explored(game, *m, Ok(true)));
                        }
                        Ok(Some(ply))
                    },
                    _ => unreached(),
                }
            },
        }
    }

    /// After the game was turned onto the line of a move and that move was
    /// played, the moves known at its position are those of the children of
    /// the node that held the move, and no longer those known before.
    pub proof fn lemma_switched_siblings(
        self,
        turned: SharedGame<'source>,
        before: SharedGame<'source>,
        plies: Seq<Ply>,
        m: Ply,
        k: int,
        played: shakmaty::Move,
    )
        requires
            self.wf(),
            turned.cursor().turned_from(before.cursor(), plies, m, k),
            turned.cursor().depth() == before.cursor().depth(),
            self.cursor().stepped_from(turned.cursor(), played),
            self.cursor().depth() < self.cursor().nodes().len(),
        ensures
            self.cursor().siblings() == self.cursor().tree().node(
                before.cursor().siblings()[k],
            ).children,
    {
        self.cursor().lemma_siblings();
    }

    /// Switches free exploration on if it is off, and off if it is on.
    pub fn toggle_explore(&mut self)
        ensures
            final(self).cursor() == old(self).cursor(),
            final(self).turn() == old(self).turn(),
            final(self).exploring() == !old(self).exploring(),
            final(self).wf() == old(self).wf(),
    {
        self.explore = !self.explore;
    }

    /// The position of the game.
    pub fn position(&self) -> (pos: &shakmaty::Chess)
        ensures
            *pos == self.cursor().replayed(),
    {
        self.iter.position()
    }
}

/// Where the turn loop of a session stands.
#[derive(Clone, Copy, PartialEq, Eq, Structural, Debug)]
pub enum Stage {
    /// The loop has not begun.
    Fresh,
    /// The trainer is about to move, once its pacing delay is over.
    TrainerPacing,
    /// The student is to find the move `expected`, and has tried in vain
    /// `errors` times in this turn.
    StudentTurn { expected: Ply, errors: u32 },
    /// The student has tried in vain often enough: the hint is about to appear.
    HintPacing { expected: Ply, errors: u32 },
    /// The student explores: any move that the tree knows is taken.
    Exploring,
    /// The line has been played to its end.
    Finished,
}

/// What the driver of a session is to wait for after a step.
#[derive(Clone, Copy, PartialEq, Eq, Structural, Debug)]
pub enum Wait {
    /// A timer of so many milliseconds.
    Pacing { millis: u32 },
    /// A move of the student.
    UserMove,
    /// Nothing but the student's next wish: the line is over.
    Idle,
    /// What was waited for before the step, which the step has not touched.
    Unchanged,
}

/// Something to show to the student.
#[derive(Debug, PartialEq, Eq)]
pub enum Effect {
    /// Set up the board with the position of the game.
    Init { explore: bool },
    /// Play a move on the board and show these arrows.
    PlayMove { ply: Ply, arrows: Vec<Arrow> },
    /// Show these arrows in place of those shown.
    UpdateArrows { arrows: Vec<Arrow> },
    /// Shake the board: the move was wrong.
    Shake,
}

/// An effect as the contracts see it.
pub enum Signal {
    Init { explore: bool },
    PlayMove { ply: Ply, arrows: Seq<Arrow> },
    UpdateArrows { arrows: Seq<Arrow> },
    Shake,
}

impl View for Effect {
    type V = Signal;

    open spec fn view(&self) -> Signal {
        match *self {
            Effect::Init { explore } => Signal::Init { explore },
            Effect::PlayMove { ply, arrows } => Signal::PlayMove { ply, arrows: arrows@ },
            Effect::UpdateArrows { arrows } => Signal::UpdateArrows { arrows: arrows@ },
            Effect::Shake => Signal::Shake,
        }
    }
}

impl Signal {
    /// The move and the arrows of the signal hold roles from 1 to 6 and
    /// squares below 64 only.
    pub open spec fn in_range(self) -> bool {
        match self {
            Signal::PlayMove { ply, arrows } => ply.in_range() && all_in_range(arrows),
            Signal::UpdateArrows { arrows } => all_in_range(arrows),
            _ => true,
        }
    }
}

/// All of the signals hold roles from 1 to 6 and squares below 64 only.
pub open spec fn signals_in_range(signals: Seq<Signal>) -> bool {
    forall|k: int| 0 <= k < signals.len() ==> (#[trigger] signals[k]).in_range()
}

/// Signals in range stay in range when one more in range comes behind them.
pub proof fn lemma_one_more_signal(signals: Seq<Signal>, last: Signal)
    requires
        signals_in_range(signals),
        last.in_range(),
    ensures
        signals_in_range(signals + seq![last]),
{
    let all = signals + seq![last];
    assert forall|k: int| 0 <= k < all.len() implies (#[trigger] all[k]).in_range() by {
        if k < signals.len() {
            assert(all[k] == signals[k]);
        } else {
            assert(all[k] == last);
        }
    }
}

/// The effects `effects` as the contracts see them.
pub open spec fn signals_of(effects: Seq<Effect>) -> Seq<Signal> {
    Seq::new(effects.len(), |k: int| effects[k]@)
}

/// The answer of the session to one event.
#[derive(Debug, PartialEq, Eq)]
pub struct Step {
    /// What to show, in this order.
    pub effects: Vec<Effect>,
    /// What to wait for then.
    pub wait: Wait,
    /// The run of the turn loop that waits: the number to hand back with
    /// the timer's end or the student's move.
    pub run: u64,
}

impl Step {
    /// What the step asks to show, as the contracts see it.
    pub open spec fn signals(&self) -> Seq<Signal> {
        signals_of(self.effects@)
    }

    /// Every move and arrow of the step holds roles from 1 to 6 and squares
    /// below 64 only.
    pub open spec fn in_range(&self) -> bool {
        signals_in_range(self.signals())
    }
}

/// How the turn loop goes on from a state of the game.
pub struct Outlook {
    pub stage: Stage,
    pub signals: Seq<Signal>,
    pub wait: Wait,
}

/// How the turn loop goes on from the state `game`. In free exploration the
/// moves that the tree knows are shown as arrows and the student's move is
/// awaited. Else, at the end of the line the loop is over; before a move of
/// the trainer comes its pacing delay; and before a move of the student, the
/// student's move is awaited, with no errors counted yet.
pub open spec fn outlook(game: SharedGame<'_>) -> Result<Outlook, CorpusFault> {
    if game.exploring() {
        match game.cursor().all_ahead() {
            Err(fault) => Err(fault),
            Ok(plies) => match arrows_along(plies) {
                None => Err(CorpusFault::MoveWithoutOrigin),
                Some(arrows) => Ok(
                    Outlook {
                        stage: Stage::Exploring,
                        signals: seq![Signal::UpdateArrows { arrows }],
                        wait: Wait::UserMove,
                    },
                ),
            },
        }
    } else {
        match game.cursor().ahead() {
            Err(fault) => Err(fault),
            Ok(None) => Ok(
                Outlook { stage: Stage::Finished, signals: Seq::empty(), wait: Wait::Idle },
            ),
            Ok(Some(expected)) => match game.turn() {
                Player::Trainer => Ok(
                    Outlook {
                        stage: Stage::TrainerPacing,
                        signals: Seq::empty(),
                        wait: Wait::Pacing { millis: PACING_MILLIS },
                    },
                ),
                Player::Student => Ok(
                    Outlook {
                        stage: Stage::StudentTurn { expected, errors: 0 },
                        signals: Seq::empty(),
                        wait: Wait::UserMove,
                    },
                ),
            },
        }
    }
}

/// The stage agrees with the game: what the loop waits for is what the game
/// will take.
pub open spec fn stage_fits(stage: Stage, game: SharedGame<'_>) -> bool {
    match stage {
        Stage::Fresh => true,
        Stage::TrainerPacing => {
            &&& !game.exploring()
            &&& game.turn() == Player::Trainer
            &&& game.cursor().ahead() matches Ok(Some(_))
        },
        Stage::StudentTurn { expected, .. } => {
            &&& expected.in_range()
            &&& !game.exploring()
            &&& game.turn() == Player::Student
            &&& game.cursor().ahead() == Ok::<Option<Ply>, CorpusFault>(Some(expected))
        },
        Stage::HintPacing { expected, .. } => {
            &&& expected.in_range()
            &&& !game.exploring()
            &&& game.turn() == Player::Student
            &&& game.cursor().ahead() == Ok::<Option<Ply>, CorpusFault>(Some(expected))
        },
        Stage::Exploring => game.exploring(),
        Stage::Finished => {
            &&& !game.exploring()
            &&& game.cursor().ahead() matches Ok(None)
        },
    }
}

/// The number of the run after run `run`; after the last number comes 0.
pub open spec fn next_run(run: u64) -> u64 {
    if run == u64::MAX {
        0
    } else {
        (run + 1) as u64
    }
}

/// One more error, as far as the counter goes.
pub open spec fn one_more(errors: u32) -> u32 {
    if errors == u32::MAX {
        errors
    } else {
        (errors + 1) as u32
    }
}

/// The arrows that go with a move of the trainer: the arrow along the move,
/// and the arrow along the move that follows it if hints are shown.
pub open spec fn trainer_arrows(ply: Ply, hint: Option<Ply>, show_hints: bool) -> Option<
    Seq<Arrow>,
> {
    match Arrow::along(ply) {
        None => None,
        Some(arrow) => match hint {
            Some(next) => if show_hints {
                match Arrow::along(next) {
                    None => None,
                    Some(second) => Some(seq![arrow, second]),
                }
            } else {
                Some(seq![arrow])
            },
            None => Some(seq![arrow]),
        },
    }
}

/// A training session: the lines to draw from, the game on one of them, and
/// the turn loop on that game. A session is made only of lines that can all
/// be played to their ends, so that no step of it meets a fault.
pub struct Session<'source> {
    variations: Variations<'source>,
    game: SharedGame<'source>,
    stage: Stage,
    run: u64,
}

impl<'source> Session<'source> {
    /// The lines from which the next one is drawn.
    pub closed spec fn lines(&self) -> Variations<'source> {
        self.variations
    }

    /// The game of the session.
    pub closed spec fn game(&self) -> SharedGame<'source> {
        self.game
    }

    /// Where the turn loop stands.
    pub closed spec fn stage(&self) -> Stage {
        self.stage
    }

    /// The number of the run of the turn loop. Every wish of the student ends
    /// the run and starts the next.
    pub closed spec fn run(&self) -> u64 {
        self.run
    }

    /// The game is played on a complete line of the tree of the session's
    /// lines, and every line of the session can be played and shown from the
    /// first position of the game.
    pub open spec fn grounded(&self) -> bool {
        &&& self.lines().wf()
        &&& self.game().wf()
        &&& self.game().cursor().tree() == self.lines().tree()
        &&& self.lines().sound_from(self.game().cursor().origin())
        &&& self.game().cursor().complete()
    }

    /// The session is grounded, and the stage agrees with the game.
    pub open spec fn wf(&self) -> bool {
        &&& self.grounded()
        &&& stage_fits(self.stage(), self.game())
    }

    /// The session after an event that it has passed over: nothing has
    /// changed, nothing is to be shown, and what was waited for is still.
    pub open spec fn passed_over(&self, before: Session<'source>, step: Step) -> bool {
        &&& self.game().same_as(before.game())
        &&& self.stage() == before.stage()
        &&& step.signals() == Seq::<Signal>::empty()
        &&& step.wait == Wait::Unchanged
        &&& step.run == before.run()
    }

    /// The session with the turn loop gone on from the state of its game:
    /// first the signals `shown` are to be shown, then what the outlook says,
    /// which has no fault.
    pub open spec fn settled(&self, shown: Seq<Signal>, step: Step) -> bool {
        match outlook(self.game()) {
            Err(_) => false,
            Ok(view) => {
                &&& step.signals() == shown + view.signals
                &&& step.wait == view.wait
                &&& step.run == self.run()
                &&& self.stage() == view.stage
            },
        }
    }

    /// In a grounded session the turn loop can always go on: the next move of
    /// the line and all moves known at its position can be read and shown.
    pub proof fn lemma_no_fault(self)
        requires
            self.grounded(),
        ensures
            outlook(self.game()) is Ok,
            self.game().cursor().ahead() is Ok,
            self.game().cursor().ahead() matches Ok(Some(ply)) ==> ply.origin() is Some,
            self.game().cursor().all_ahead() matches Ok(plies) && arrows_along(plies) is Some,
    {
        let cursor = self.game().cursor();
        cursor.lemma_sound_line(self.lines());
        cursor.lemma_sound_ahead();
        cursor.lemma_sound_all_ahead(self.lines());
    }

    /// A session on the line that `line` is, one of `variations`, with `start`
    /// as the position before the first move.
    fn on_line(
        variations: Variations<'source>,
        line: &Variation<'source>,
        start: &shakmaty::Chess,
    ) -> (made: Result<Self, CorpusFault>)
        requires
            variations.wf(),
            line.wf(),
            line.tree() == variations.tree(),
            variations.nodes().contains(line.leaf()),
        ensures
            match first_fault(*start, variations.lines()) {
                Some(fault) => made matches Err(found) && found == fault,
                None => made matches Ok(session) && session.begun_on(variations, *line, *start),
            },
    {
        match variations.check_from(start) {
            Some(fault) => Err(fault),
            None => {
                let game = SharedGame::new_from(line, start);
                proof {
                    variations.lemma_lines_are_leaves();
                    game.cursor().lemma_on_leaf(line.leaf());
                }
                Ok(Session { variations, game, stage: Stage::Fresh, run: 0 })
            },
        }
    }

    /// The session is new: on the line `line` of `lines`, before its first
    /// move, with `start` as the position there, the trainer to move, and the
    /// turn loop not begun.
    pub open spec fn begun_on(
        &self,
        lines: Variations<'source>,
        line: Variation<'source>,
        start: shakmaty::Chess,
    ) -> bool {
        &&& self.wf()
        &&& self.lines() == lines
        &&& self.stage() == Stage::Fresh
        &&& self.run() == 0
        &&& self.game().cursor().tree() == lines.tree()
        &&& self.game().cursor().nodes() == lines.tree().path(line.leaf())
        &&& self.game().cursor().depth() == 0
        &&& self.game().cursor().origin() == start
        &&& self.game().cursor().replayed() == start
        &&& self.game().turn() == Player::Trainer
        &&& !self.game().exploring()
    }

    /// A session on the line of number `first`, with `start` as the position
    /// before the first move. All lines are played from `start` before
    /// anything else happens: the first fault found is returned, and no
    /// session is made.
    pub fn new_from(
        variations: Variations<'source>,
        first: usize,
        start: &shakmaty::Chess,
    ) -> (made: Result<Self, CorpusFault>)
        requires
            variations.wf(),
            first < variations.nodes().len(),
        ensures
            match first_fault(*start, variations.lines()) {
                Some(fault) => made matches Err(found) && found == fault,
                None => made matches Ok(session) && exists|line: Variation<'source>|
                    line.leaf() == variations.nodes()[first as int] && #[trigger] session.begun_on(
                        variations,
                        line,
                        *start,
                    ),
            },
    {
        let line = variations.get(first);
        proof {
            assert(variations.nodes()[first as int] == line.leaf());
        }
        Session::on_line(variations, &line, start)
    }

    /// A session on the line of number `first`, from the first position of a
    /// game. All lines are played before anything else happens: the first
    /// fault found is returned, and no session is made.
    pub fn new(variations: Variations<'source>, first: usize) -> (made: Result<Self, CorpusFault>)
        requires
            variations.wf(),
            first < variations.nodes().len(),
        ensures
            exists|start: shakmaty::Chess|
                match #[trigger] first_fault(start, variations.lines()) {
                    Some(fault) => made matches Err(found) && found == fault,
                    None => made matches Ok(session) && exists|line: Variation<'source>|
                        line.leaf() == variations.nodes()[first as int]
                            && #[trigger] session.begun_on(variations, line, start),
                },
    {
        let start = start_position();
        Session::new_from(variations, first, &start)
    }

    /// A session on a line drawn at random from `variations`, each as likely
    /// as any other, from the first position of a game. All lines are played
    /// before anything else happens: the first fault found is returned, and
    /// no session is made.
    pub fn with_random_line(
        variations: Variations<'source>,
        rng: &mut rand::rngs::ThreadRng,
    ) -> (made: Result<Self, CorpusFault>)
        requires
            variations.wf(),
        ensures
            exists|start: shakmaty::Chess|
                match #[trigger] first_fault(start, variations.lines()) {
                    Some(fault) => made matches Err(found) && found == fault,
                    None => made matches Ok(session) && exists|line: Variation<'source>|
                        variations.nodes().contains(line.leaf()) && #[trigger] session.begun_on(
                            variations,
                            line,
                            start,
                        ),
                },
    {
        let first = variations.choose_random(rng);
        let start = start_position();
        Session::on_line(variations, &first, &start)
    }

    /// The game of the session.
    pub fn current_game(&self) -> (game: &SharedGame<'source>)
        ensures
            *game == self.game(),
    {
        &self.game
    }

    /// Where the turn loop stands.
    pub fn current_stage(&self) -> (stage: Stage)
        ensures
            stage == self.stage(),
    {
        self.stage
    }

    /// The number of the run of the turn loop.
    pub fn current_run(&self) -> (run: u64)
        ensures
            run == self.run(),
    {
        self.run
    }

    /// The number of lines of the session.
    pub fn line_count(&self) -> (count: usize)
        requires
            self.wf(),
        ensures
            count == self.lines().nodes().len(),
            count > 0,
    {
        self.variations.len()
    }

    /// Lets the turn loop go on from the state of the game.
    fn settle(&mut self, effects: Vec<Effect>) -> (step: Step)
        requires
            old(self).grounded(),
            signals_in_range(signals_of(effects@)),
        ensures
            step.in_range(),
            final(self).wf(),
            final(self).game == old(self).game,
            final(self).variations == old(self).variations,
            final(self).run == old(self).run,
            final(self).settled(signals_of(effects@), step),
    {
        let mut effects = effects;
        let ghost shown = signals_of(effects@);
        proof {
            self.lemma_no_fault();
        }
        if self.game.is_explore() {
            let plies = match self.game.peek_all() {
                Ok(plies) => plies,
                Err(_) => unreached(),
            };
            let arrows = match arrows_of(&plies) {
                Some(arrows) => arrows,
                None => unreached(),
            };
            effects.push(Effect::UpdateArrows { arrows });
            self.stage = Stage::Exploring;
            proof {
                assert(signals_of(effects@) =~= shown + seq![
                    Signal::UpdateArrows { arrows: arrows@ },
                ]);
                lemma_one_more_signal(shown, Signal::UpdateArrows { arrows: arrows@ });
            }
            Step { effects, wait: Wait::UserMove, run: self.run }
        } else {
            proof {
                assert(shown + Seq::<Signal>::empty() =~= shown);
            }
            match self.game.peek() {
                Err(_) => unreached(),
                Ok(None) => {
                    self.stage = Stage::Finished;
                    Step { effects, wait: Wait::Idle, run: self.run }
                },
                Ok(Some(expected)) => match self.game.current_player() {
                    Player::Trainer => {
                        self.stage = Stage::TrainerPacing;
                        let wait = Wait::Pacing { millis: PACING_MILLIS };
                        Step { effects, wait, run: self.run }
                    },
                    Player::Student => {
                        self.stage = Stage::StudentTurn { expected, errors: 0 };
                        Step { effects, wait: Wait::UserMove, run: self.run }
                    },
                },
            }
        }
    }

    /// Begins the turn loop: the board is set up, and the loop goes on from
    /// the state of the game.
    pub fn start(&mut self) -> (step: Step)
        requires
            old(self).wf(),
        ensures
            step.in_range(),
            final(self).wf(),
            final(self).lines() == old(self).lines(),
            final(self).run() == old(self).run(),
            final(self).game() == old(self).game(),
            final(self).settled(
                seq![Signal::Init { explore: old(self).game().exploring() }],
                step,
            ),
    {
        let mut effects: Vec<Effect> = Vec::new();
        effects.push(Effect::Init { explore: self.game.is_explore() });
        proof {
            assert(signals_of(effects@) =~= seq![
                Signal::Init { explore: self.game.exploring() },
            ]);
        }
        self.settle(effects)
    }

    /// What the end of a timer makes of the session `before` and answers.
    ///
    /// A timer of another run, or one that the turn loop does not wait for,
    /// is passed over. After its pacing delay the trainer plays the next move
    /// of the line; it is shown with the arrows that go with it, and the loop
    /// goes on. After the hint's delay the expected move is shown as an
    /// arrow, and the student's move is awaited again.
    pub open spec fn after_timer(
        &self,
        before: Session<'source>,
        run: u64,
        show_hints: bool,
        step: Step,
    ) -> bool {
        if run != before.run() {
            self.passed_over(before, step)
        } else {
            match before.stage() {
                Stage::TrainerPacing => {
                    let m = before.game().cursor().move_ahead();
                    &&& self.game().cursor().stepped_from(before.game().cursor(), m)
                    &&& self.game().turn() == Player::Student
                    &&& self.game().exploring() == before.game().exploring()
                    &&& match self.game().cursor().ahead() {
                        Err(_) => false,
                        Ok(hint) => match trainer_arrows(move_details(m), hint, show_hints) {
                            None => false,
                            Some(arrows) => self.settled(
                                seq![Signal::PlayMove { ply: move_details(m), arrows }],
                                step,
                            ),
                        },
                    }
                },
                Stage::HintPacing { expected, errors } => {
                    &&& self.game().same_as(before.game())
                    &&& match Arrow::along(expected) {
                        None => false,
                        Some(arrow) => {
                            &&& step.signals() == seq![
                                Signal::UpdateArrows { arrows: seq![arrow] },
                            ]
                            &&& step.wait == Wait::UserMove
                            &&& step.run == before.run()
                            &&& self.stage() == Stage::StudentTurn { expected, errors }
                        },
                    }
                },
                _ => self.passed_over(before, step),
            }
        }
    }

    /// What a move of the student makes of the session `before` and answers.
    ///
    /// A move for another run, or one that the turn loop does not wait for,
    /// is passed over. In the student's turn the expected move is played and
    /// the loop goes on; any other move shakes the board and counts as an
    /// error, and the error that fills the measure brings the hint after
    /// its delay. In free exploration a move that the tree knows from the
    /// position is played on its line and the loop goes on; any other move
    /// shakes the board.
    pub open spec fn after_move(
        &self,
        before: Session<'source>,
        run: u64,
        m: Ply,
        step: Step,
    ) -> bool {
        if run != before.run() {
            self.passed_over(before, step)
        } else {
            match before.stage() {
                Stage::StudentTurn { expected, errors } => if m == expected {
                    &&& self.game().cursor().stepped_from(
                        before.game().cursor(),
                        before.game().cursor().move_ahead(),
                    )
                    &&& self.game().turn() == Player::Trainer
                    &&& self.game().exploring() == before.game().exploring()
                    &&& self.settled(
                        seq![Signal::PlayMove { ply: expected, arrows: Seq::empty() }],
                        step,
                    )
                } else {
                    &&& self.game().same_as(before.game())
                    &&& step.signals() == seq![Signal::Shake]
                    &&& step.run == before.run()
                    &&& if one_more(errors) == ERRORS_BEFORE_HINT {
                        &&& self.stage() == Stage::HintPacing {
                            expected,
                            errors: one_more(errors),
                        }
                        &&& step.wait == Wait::Pacing { millis: HINT_MILLIS }
                    } else {
                        &&& self.stage() == Stage::StudentTurn {
                            expected,
                            errors: one_more(errors),
                        }
                        &&& step.wait == Wait::UserMove
                    }
                },
                Stage::Exploring => match before.game().cursor().all_ahead() {
                    Err(_) => false,
                    Ok(plies) => if plies.contains(m) {
                        &&& self.game().explored(before.game(), m, Ok(true))
                        &&& self.game().exploring() == before.game().exploring()
                        &&& self.settled(
                            seq![Signal::PlayMove { ply: m, arrows: Seq::empty() }],
                            step,
                        )
                    } else {
                        &&& self.game().same_as(before.game())
                        &&& step.signals() == seq![Signal::Shake]
                        &&& step.wait == Wait::UserMove
                        &&& step.run == before.run()
                        &&& self.stage() == Stage::Exploring
                    },
                },
                _ => self.passed_over(before, step),
            }
        }
    }

    /// The answer to an event that is passed over.
    fn pass_over(&self) -> (step: Step)
        ensures
            step.in_range(),
            self.passed_over(*self, step),
    {
        let effects: Vec<Effect> = Vec::new();
        proof {
            assert(signals_of(effects@) =~= Seq::<Signal>::empty());
        }
        Step { effects, wait: Wait::Unchanged, run: self.run }
    }

    /// The timer that the step of run `run` asked for has run out.
    /// `show_hints` says whether the student wants to see hints.
    pub fn timer_elapsed(&mut self, run: u64, show_hints: bool) -> (step: Step)
        requires
            old(self).wf(),
        ensures
            step.in_range(),
            final(self).wf(),
            final(self).lines() == old(self).lines(),
            final(self).run() == old(self).run(),
            final(self).after_timer(*old(self), run, show_hints, step),
    {
        if run != self.run {
            return self.pass_over();
        }
        proof {
            self.lemma_no_fault();
        }
        match self.stage {
            Stage::TrainerPacing => {
                let ply = match self.game.next() {
                    Ok(Some(ply)) => ply,
                    _ => unreached(),
                };
                proof {
                    self.lemma_no_fault();
                }
                let hint = match self.game.peek() {
                    Ok(hint) => hint,
                    Err(_) => unreached(),
                };
                let mut arrows: Vec<Arrow> = Vec::new();
                match Arrow::of_ply(&ply) {
                    Some(arrow) => {
                        arrows.push(arrow);
                    },
                    None => unreached(),
                }
                if show_hints {
                    if let Some(next) = hint {
                        match Arrow::of_ply(&next) {
                            Some(arrow) => {
                                arrows.push(arrow);
                            },
                            None => unreached(),
                        }
                    }
                }
                let mut effects: Vec<Effect> = Vec::new();
                proof {
                    assert(arrows@ =~= trainer_arrows(ply, hint, show_hints)->0);
                }
                effects.push(Effect::PlayMove { ply, arrows });
                proof {
                    assert(signals_of(effects@) =~= seq![
                        Signal::PlayMove { ply, arrows: arrows@ },
                    ]);
                }
                self.settle(effects)
            },
            Stage::HintPacing { expected, errors } => {
                match Arrow::of_ply(&expected) {
                    Some(arrow) => {
                        let mut arrows: Vec<Arrow> = Vec::new();
                        arrows.push(arrow);
                        let mut effects: Vec<Effect> = Vec::new();
                        effects.push(Effect::UpdateArrows { arrows });
                        proof {
                            assert(arrows@ =~= seq![arrow]);
                            assert(signals_of(effects@) =~= seq![
                                Signal::UpdateArrows { arrows: seq![arrow] },
                            ]);
                        }
                        self.stage = Stage::StudentTurn { expected, errors };
                        Step { effects, wait: Wait::UserMove, run: self.run }
                    },
                    None => unreached(),
                }
            },
            _ => self.pass_over(),
        }
    }

    /// The student has made move `m`, awaited by the step of run `run`.
    pub fn user_move(&mut self, run: u64, m: &Ply) -> (step: Step)
        requires
            old(self).wf(),
        ensures
            step.in_range(),
            final(self).wf(),
            final(self).lines() == old(self).lines(),
            final(self).run() == old(self).run(),
            final(self).after_move(*old(self), run, *m, step),
    {
        if run != self.run {
            return self.pass_over();
        }
        proof {
            self.lemma_no_fault();
        }
        match self.stage {
            Stage::StudentTurn { expected, errors } => {
                if *m == expected {
                    let ply = match self.game.next() {
                        Ok(Some(ply)) => ply,
                        _ => unreached(),
                    };
                    let arrows: Vec<Arrow> = Vec::new();
                    let mut effects: Vec<Effect> = Vec::new();
                    effects.push(Effect::PlayMove { ply, arrows });
                    proof {
                        assert(arrows@ =~= Seq::<Arrow>::empty());
                        assert(signals_of(effects@) =~= seq![
                            Signal::PlayMove { ply: expected, arrows: Seq::empty() },
                        ]);
                    }
                    self.settle(effects)
                } else {
                    let errors = if errors == u32::MAX {
                        errors
                    } else {
                        errors + 1
                    };
                    let mut effects: Vec<Effect> = Vec::new();
                    effects.push(Effect::Shake);
                    proof {
                        assert(signals_of(effects@) =~= seq![Signal::Shake]);
                    }
                    if errors == ERRORS_BEFORE_HINT {
                        self.stage = Stage::HintPacing { expected, errors };
                        let wait = Wait::Pacing { millis: HINT_MILLIS };
                        Step { effects, wait, run: self.run }
                    } else {
                        self.stage = Stage::StudentTurn { expected, errors };
                        Step { effects, wait: Wait::UserMove, run: self.run }
                    }
                }
            },
            Stage::Exploring => {
                let ghost before = self.game;
                match self.game.explore_move(m) {
                    Err(_) => unreached(),
                    Ok(Some(ply)) => {
                        proof {
                            let plies = before.cursor().all_ahead()->Ok_0;
                            let k = choose|k: int| #[trigger]
                                self.game.cursor().explored_from(before.cursor(), plies, *m, k);
                            self.game.cursor().lemma_turned_complete(
                                before.cursor(),
                                plies,
                                *m,
                                k,
                            );
                        }
                        let arrows: Vec<Arrow> = Vec::new();
                        let mut effects: Vec<Effect> = Vec::new();
                        effects.push(Effect::PlayMove { ply, arrows });
                        proof {
                            assert(arrows@ =~= Seq::<Arrow>::empty());
                            assert(signals_of(effects@) =~= seq![
                                Signal::PlayMove { ply: *m, arrows: Seq::empty() },
                            ]);
                        }
                        self.settle(effects)
                    },
                    Ok(None) => {
                        let mut effects: Vec<Effect> = Vec::new();
                        effects.push(Effect::Shake);
                        proof {
                            assert(signals_of(effects@) =~= seq![Signal::Shake]);
                        }
                        Step { effects, wait: Wait::UserMove, run: self.run }
                    },
                }
            },
            _ => self.pass_over(),
        }
    }

    /// The game is that of `before` at the start of its line again: the same
    /// line, no move played, the first position, and the trainer to move.
    pub open spec fn rewound_from(&self, before: Session<'source>) -> bool {
        &&& self.game().cursor().tree() == before.game().cursor().tree()
        &&& self.game().cursor().nodes() == before.game().cursor().nodes()
        &&& self.game().cursor().origin() == before.game().cursor().origin()
        &&& self.game().cursor().depth() == 0
        &&& self.game().cursor().replayed() == self.game().cursor().origin()
        &&& self.game().turn() == Player::Trainer
        &&& self.game().exploring() == before.game().exploring()
    }

    /// The game is at the start of the line that ends at node `leaf`: no move
    /// played, the first position, and the trainer to move. The mode is that
    /// of `before`.
    pub open spec fn on_leaf(&self, before: Session<'source>, leaf: Node) -> bool {
        &&& self.game().cursor().tree() == before.lines().tree()
        &&& self.game().cursor().nodes() == before.lines().tree().path(leaf)
        &&& self.game().cursor().origin() == before.game().cursor().origin()
        &&& self.game().cursor().depth() == 0
        &&& self.game().cursor().replayed() == self.game().cursor().origin()
        &&& self.game().turn() == Player::Trainer
        &&& self.game().exploring() == before.game().exploring()
    }

    /// The game is that of `before` in the other mode, where it stood, with
    /// the trainer to move.
    pub open spec fn toggled_from(&self, before: Session<'source>) -> bool {
        &&& self.game().cursor() == before.game().cursor()
        &&& self.game().turn() == Player::Trainer
        &&& self.game().exploring() == !before.game().exploring()
    }

    /// Ends the run of the turn loop and begins the next.
    fn rerun(&mut self) -> (step: Step)
        requires
            old(self).grounded(),
        ensures
            step.in_range(),
            final(self).wf(),
            final(self).game == old(self).game,
            final(self).variations == old(self).variations,
            final(self).run() == next_run(old(self).run()),
            final(self).settled(
                seq![Signal::Init { explore: old(self).game.exploring() }],
                step,
            ),
    {
        self.run = if self.run == u64::MAX {
            0
        } else {
            self.run + 1
        };
        self.stage = Stage::Fresh;
        self.start()
    }

    /// The student wants the same line again: the run of the turn loop ends,
    /// the game goes back to the start of its line, and a new run begins.
    pub fn restart(&mut self) -> (step: Step)
        requires
            old(self).wf(),
        ensures
            step.in_range(),
            final(self).wf(),
            final(self).lines() == old(self).lines(),
            final(self).run() == next_run(old(self).run()),
            final(self).rewound_from(*old(self)),
            final(self).settled(
                seq![Signal::Init { explore: old(self).game().exploring() }],
                step,
            ),
    {
        self.game.reset();
        self.rerun()
    }

    /// Takes up the line `line`, one of the lines of the session.
    fn take_up(&mut self, line: &Variation<'source>) -> (step: Step)
        requires
            old(self).wf(),
            line.wf(),
            line.tree() == old(self).lines().tree(),
            old(self).lines().nodes().contains(line.leaf()),
        ensures
            step.in_range(),
            final(self).wf(),
            final(self).lines() == old(self).lines(),
            final(self).run() == next_run(old(self).run()),
            final(self).on_leaf(*old(self), line.leaf()),
            final(self).settled(
                seq![Signal::Init { explore: old(self).game().exploring() }],
                step,
            ),
    {
        self.game.start_variation(line);
        proof {
            self.variations.lemma_lines_are_leaves();
            self.game.cursor().lemma_on_leaf(line.leaf());
        }
        self.rerun()
    }

    /// The student wants another line, and the line of number `index` was
    /// drawn: the run of the turn loop ends, the game takes up that line at
    /// its start, and a new run begins.
    pub fn next_level(&mut self, index: usize) -> (step: Step)
        requires
            old(self).wf(),
            index < old(self).lines().nodes().len(),
        ensures
            step.in_range(),
            final(self).wf(),
            final(self).lines() == old(self).lines(),
            final(self).run() == next_run(old(self).run()),
            final(self).on_leaf(*old(self), old(self).lines().nodes()[index as int]),
            final(self).settled(
                seq![Signal::Init { explore: old(self).game().exploring() }],
                step,
            ),
    {
        let line = self.variations.get(index);
        proof {
            assert(self.variations.nodes()[index as int] == line.leaf());
        }
        self.take_up(&line)
    }

    /// The student switches free exploration on or off: the run of the turn
    /// loop ends, the mode changes, and a new run begins where the game
    /// stands, with the trainer to move.
    pub fn toggle_explore(&mut self) -> (step: Step)
        requires
            old(self).wf(),
        ensures
            step.in_range(),
            final(self).wf(),
            final(self).lines() == old(self).lines(),
            final(self).run() == next_run(old(self).run()),
            final(self).toggled_from(*old(self)),
            final(self).settled(
                seq![Signal::Init { explore: !old(self).game().exploring() }],
                step,
            ),
    {
        self.game.toggle_explore();
        self.game.last_turn = Player::Trainer;
        self.rerun()
    }

    /// The student asks for something. Whatever the turn loop waited for is
    /// waited for no longer: what comes of it belongs to a run that is over.
    /// The line for the next level is drawn at random from the lines of the
    /// session, each as likely as any other.
    pub fn user_action(&mut self, action: UserAction, rng: &mut rand::rngs::ThreadRng) -> (step:
        Step)
        requires
            old(self).wf(),
        ensures
            step.in_range(),
            final(self).wf(),
            final(self).lines() == old(self).lines(),
            final(self).run() == next_run(old(self).run()),
            match action {
                UserAction::Restart => final(self).rewound_from(*old(self)),
                UserAction::NextLevel => exists|k: int|
                    0 <= k < old(self).lines().nodes().len() && final(self).on_leaf(
                        *old(self),
                        #[trigger] old(self).lines().nodes()[k],
                    ),
                UserAction::ToggleExplore => final(self).toggled_from(*old(self)),
            },
            final(self).settled(
                seq![Signal::Init { explore: final(self).game().exploring() }],
                step,
            ),
    {
        match action {
            UserAction::Restart => self.restart(),
            UserAction::NextLevel => {
                let line = self.variations.choose_random(rng);
                let ghost before = *self;
                let step = self.take_up(&line);
                proof {
                    let k = choose|k: int|
                        0 <= k < before.lines().nodes().len() && before.lines().nodes()[k]
                            == line.leaf();
                    assert(self.on_leaf(before, before.lines().nodes()[k]));
                }
                step
            },
            UserAction::ToggleExplore => self.toggle_explore(),
        }
    }
}

} // verus!
