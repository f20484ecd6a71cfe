//! The rules of chess, as this library sees them.
//!
//! Positions, the reading of a move's notation in a position and the playing
//! of a move are the work of the `shakmaty` crate. Its values pass through
//! this library unopened; what the library itself reads of a move, its kind
//! and its squares, is copied into a [`Ply`] of plain numbers.

use vstd::prelude::*;

verus! {

/// A square: 0 is a1, 1 is b1, 7 is h1, 8 is a2, 63 is h8.
pub type Square = u8;

/// A kind of piece: 1 pawn, 2 knight, 3 bishop, 4 rook, 5 queen, 6 king.
pub type Role = u8;

/// One move by one side, told by what it moves and where.
#[derive(Clone, Copy, PartialEq, Eq, Structural, Debug)]
pub enum Ply {
    Normal { role: Role, from: Square, capture: Option<Role>, to: Square, promotion: Option<Role> },
    EnPassant { from: Square, to: Square },
    /// Castling, told by the squares of the king and of the rook that take part.
    Castle { king: Square, rook: Square },
    /// A piece set on the board from outside it.
    Put { role: Role, to: Square },
}

/// The number names a kind of piece: it is one of 1 to 6.
pub open spec fn is_role(role: Role) -> bool {
    1 <= role <= 6
}

impl Ply {
    /// Every role of the move is one of 1 to 6 and every square lies below 64.
    pub open spec fn in_range(self) -> bool {
        match self {
            Ply::Normal { role, from, capture, to, promotion } => {
                &&& is_role(role)
                &&& from < 64
                &&& to < 64
                &&& (capture matches Some(taken) ==> is_role(taken))
                &&& (promotion matches Some(made) ==> is_role(made))
            },
            Ply::EnPassant { from, to } => from < 64 && to < 64,
            Ply::Castle { king, rook } => king < 64 && rook < 64,
            Ply::Put { role, to } => is_role(role) && to < 64,
        }
    }

    /// The square that the move starts from: the king's, for castling.
    pub open spec fn origin(self) -> Option<Square> {
        match self {
            Ply::Normal { from, .. } => Some(from),
            Ply::EnPassant { from, .. } => Some(from),
            Ply::Castle { king, .. } => Some(king),
            Ply::Put { .. } => None,
        }
    }

    /// The square that the move goes to: the rook's, for castling.
    pub open spec fn target(self) -> Square {
        match self {
            Ply::Normal { to, .. } => to,
            Ply::EnPassant { to, .. } => to,
            Ply::Castle { rook, .. } => rook,
            Ply::Put { to, .. } => to,
        }
    }

    /// The square that the move starts from; a piece that is put on the board
    /// starts from none.
    pub fn from(&self) -> (square: Option<Square>)
        ensures
            square == self.origin(),
    {
        match *self {
            Ply::Normal { from, .. } => Some(from),
            Ply::EnPassant { from, .. } => Some(from),
            Ply::Castle { king, .. } => Some(king),
            Ply::Put { .. } => None,
        }
    }

    /// The square that the move goes to.
    pub fn to(&self) -> (square: Square)
        ensures
            square == self.target(),
    {
        match *self {
            Ply::Normal { to, .. } => to,
            Ply::EnPassant { to, .. } => to,
            Ply::Castle { rook, .. } => rook,
            Ply::Put { to, .. } => to,
        }
    }
}

/// What is wrong with a line of moves that cannot be played.
#[derive(Clone, Copy, PartialEq, Eq, Structural, Debug)]
pub enum CorpusFault {
    /// The text of a move is no short algebraic notation.
    InvalidSan,
    /// The notation names no move, or more than one, in its position.
    IllegalMove,
    /// A move that starts from no square was to be shown as an arrow.
    MoveWithoutOrigin,
}

/// A position of the rules crate, carried unopened.
#[verifier::external_type_specification]
#[verifier::external_body]
pub struct ExChess(shakmaty::Chess);

/// A move of the rules crate, carried unopened.
#[verifier::external_type_specification]
#[verifier::external_body]
pub struct ExMove(shakmaty::Move);

/// A parsed notation of the rules crate, carried unopened.
#[verifier::external_type_specification]
#[verifier::external_body]
pub struct ExSan(shakmaty::san::San);

/// The error of the rules crate for text that is no notation.
#[verifier::external_type_specification]
#[verifier::external_body]
pub struct ExParseSanError(shakmaty::san::ParseSanError);

/// The error of the rules crate for a notation that names no one legal move.
#[verifier::external_type_specification]
#[verifier::external_body]
pub struct ExSanError(shakmaty::san::SanError);

/// What `San::from_ascii` makes of a text.
pub uninterp spec fn parsed_san(text: Seq<u8>) -> Result<
    shakmaty::san::San,
    shakmaty::san::ParseSanError,
>;

/// What `San::to_move` makes of a notation in a position.
pub uninterp spec fn san_move(san: shakmaty::san::San, pos: shakmaty::Chess) -> Result<
    shakmaty::Move,
    shakmaty::san::SanError,
>;

/// The position that `Position::play_unchecked` leaves when move `m` is
/// played in `pos`.
pub uninterp spec fn position_after(pos: shakmaty::Chess, m: shakmaty::Move) -> shakmaty::Chess;

/// The kind and the squares of a move of the rules crate.
pub uninterp spec fn move_details(m: shakmaty::Move) -> Ply;

/// Some notation names move `m` in `pos`: the move is legal there.
pub open spec fn names_move(pos: shakmaty::Chess, m: shakmaty::Move) -> bool {
    exists|san: shakmaty::san::San| #[trigger] san_move(san, pos) == Ok::<
        shakmaty::Move,
        shakmaty::san::SanError,
    >(m)
}

/// The move that the text `text` stands for in `pos`.
pub open spec fn reading(pos: shakmaty::Chess, text: Seq<u8>) -> Result<
    shakmaty::Move,
    CorpusFault,
> {
    match parsed_san(text) {
        Err(_) => Err(CorpusFault::InvalidSan),
        Ok(san) => match san_move(san, pos) {
            Err(_) => Err(CorpusFault::IllegalMove),
            Ok(m) => Ok(m),
        },
    }
}

/// The position reached from `start` by playing the moves of `line` in
/// order, or the fault of the first of them that cannot be played.
pub open spec fn replay(start: shakmaty::Chess, line: Seq<Seq<u8>>) -> Result<
    shakmaty::Chess,
    CorpusFault,
>
    decreases line.len(),
{
    if line.len() == 0 {
        Ok(start)
    } else {
        match replay(start, line.drop_last()) {
            Err(fault) => Err(fault),
            Ok(pos) => match reading(pos, line.last()) {
                Err(fault) => Err(fault),
                Ok(m) => Ok(position_after(pos, m)),
            },
        }
    }
}

/// `Chess::default`: the position before the first move of a game.
#[verifier::external_body]
pub(crate) fn start_position() -> (pos: shakmaty::Chess) {
    shakmaty::Chess::default()
}

/// `Chess::clone`: a position equal to `pos` in every part.
#[verifier::external_body]
pub(crate) fn copy_position(pos: &shakmaty::Chess) -> (copy: shakmaty::Chess)
    ensures
        copy == *pos,
{
    pos.clone()
}

/// `San::from_ascii`: reads a move's notation, or says that the text is none.
/// The result depends on the text alone.
#[verifier::external_body]
pub(crate) fn parse_san(text: &[u8]) -> (san: Result<
    shakmaty::san::San,
    shakmaty::san::ParseSanError,
>)
    ensures
        san == parsed_san(text@),
{
    shakmaty::san::San::from_ascii(text)
}

/// `San::to_move`: the one legal move of `pos` that the notation names, or an
/// error if it names none or several. The result depends on the notation and
/// the position alone.
#[verifier::external_body]
pub(crate) fn san_to_move(san: &shakmaty::san::San, pos: &shakmaty::Chess) -> (m: Result<
    shakmaty::Move,
    shakmaty::san::SanError,
>)
    ensures
        m == san_move(*san, *pos),
{
    san.to_move(pos)
}

/// `Position::play_unchecked`: plays a move that is legal in the position.
/// The new position depends on the old one and the move alone.
#[verifier::external_body]
pub(crate) fn play_unchecked(pos: &mut shakmaty::Chess, m: &shakmaty::Move)
    requires
        names_move(*old(pos), *m),
    ensures
        *final(pos) == position_after(*old(pos), *m),
{
    shakmaty::Position::play_unchecked(pos, m)
}

/// Copies the kind, the roles and the squares out of a move of the rules
/// crate: `u8::from` gives a role's number from 1 to 6 and a square's index
/// from 0 to 63.
#[verifier::external_body]
pub(crate) fn describe(m: &shakmaty::Move) -> (plain: Ply)
    ensures
        plain == move_details(*m),
        plain.in_range(),
{
    match *m {
        shakmaty::Move::Normal { role, from, capture, to, promotion } => {
            let (capture, promotion) = (capture.map(u8::from), promotion.map(u8::from));
            Ply::Normal { role: role.into(), from: from.into(), capture, to: to.into(), promotion }
        },
        shakmaty::Move::EnPassant { from, to } => {
            Ply::EnPassant { from: from.into(), to: to.into() }
        },
        shakmaty::Move::Castle { king, rook } => {
            Ply::Castle { king: king.into(), rook: rook.into() }
        },
        shakmaty::Move::Put { role, to } => Ply::Put { role: role.into(), to: to.into() },
    }
}

/// Reads the move that `text` stands for in `pos`.
pub(crate) fn read_move(pos: &shakmaty::Chess, text: &[u8]) -> (m: Result<
    shakmaty::Move,
    CorpusFault,
>)
    ensures
        m == reading(*pos, text@),
        m matches Ok(found) ==> names_move(*pos, found),
{
    match parse_san(text) {
        Err(_) => Err(CorpusFault::InvalidSan),
        Ok(san) => match san_to_move(&san, pos) {
            Err(_) => Err(CorpusFault::IllegalMove),
            Ok(found) => Ok(found),
        },
    }
}

/// What the library tells of a move of the rules crate: its kind, its roles
/// and its squares.
pub fn ply_of(m: &shakmaty::Move) -> (ply: Ply)
    ensures
        ply == move_details(*m),
        ply.in_range(),
{
    describe(m)
}

/// What is wrong with a line of moves, played from `start`: the fault of the
/// first of its moves that cannot be read in the position before it, or that
/// starts from no square, and nothing if all of them can be played and shown.
pub open spec fn line_fault(start: shakmaty::Chess, line: Seq<Seq<u8>>) -> Option<CorpusFault>
    decreases line.len(),
{
    if line.len() == 0 {
        None
    } else {
        match line_fault(start, line.drop_last()) {
            Some(fault) => Some(fault),
            None => match replay(start, line.drop_last()) {
                Err(fault) => Some(fault),
                Ok(pos) => match reading(pos, line.last()) {
                    Err(fault) => Some(fault),
                    Ok(m) => if move_details(m).origin() is None {
                        Some(CorpusFault::MoveWithoutOrigin)
                    } else {
                        None
                    },
                },
            },
        }
    }
}

/// What is wrong with the first of `lines` that has a fault, each played from
/// `start`, and nothing if none has one.
pub open spec fn first_fault(start: shakmaty::Chess, lines: Seq<Seq<Seq<u8>>>) -> Option<
    CorpusFault,
>
    decreases lines.len(),
{
    if lines.len() == 0 {
        None
    } else {
        match first_fault(start, lines.drop_last()) {
            Some(fault) => Some(fault),
            None => line_fault(start, lines.last()),
        }
    }
}

/// A line without a fault can be played to its end.
pub proof fn lemma_sound_replays(start: shakmaty::Chess, line: Seq<Seq<u8>>)
    requires
        line_fault(start, line) is None,
    ensures
        replay(start, line) is Ok,
    decreases line.len(),
{
    if line.len() > 0 {
        lemma_sound_replays(start, line.drop_last());
    }
}

/// Every start of a line without a fault is a line without a fault.
pub proof fn lemma_sound_prefix(start: shakmaty::Chess, line: Seq<Seq<u8>>, d: int)
    requires
        line_fault(start, line) is None,
        0 <= d <= line.len(),
    ensures
        line_fault(start, line.take(d)) is None,
        replay(start, line.take(d)) is Ok,
    decreases line.len(),
{
    if d == line.len() {
        assert(line.take(d) =~= line);
        lemma_sound_replays(start, line);
    } else {
        lemma_sound_prefix(start, line.drop_last(), d);
        assert(line.drop_last().take(d) =~= line.take(d));
    }
}

/// In a line without a fault every move can be read in the position that the
/// moves before it lead to, and starts from a square.
pub proof fn lemma_sound_step(start: shakmaty::Chess, line: Seq<Seq<u8>>, d: int)
    requires
        line_fault(start, line) is None,
        0 <= d < line.len(),
    ensures
        replay(start, line.take(d)) matches Ok(pos) && reading(pos, line[d]) matches Ok(m)
            && move_details(m).origin() is Some,
{
    lemma_sound_prefix(start, line, d + 1);
    let upto = line.take(d + 1);
    assert(upto.drop_last() =~= line.take(d));
    assert(upto.last() == line[d]);
}

/// A fault stays: a line has the fault of every start of it that has one.
pub proof fn lemma_line_fault_stays(start: shakmaty::Chess, line: Seq<Seq<u8>>, d: int)
    requires
        0 <= d <= line.len(),
        line_fault(start, line.take(d)) is Some,
    ensures
        line_fault(start, line) == line_fault(start, line.take(d)),
    decreases line.len() - d,
{
    if d == line.len() {
        assert(line.take(d) =~= line);
    } else {
        let upto = line.take(d + 1);
        assert(upto.drop_last() =~= line.take(d));
        lemma_line_fault_stays(start, line, d + 1);
    }
}

/// No line has a fault exactly if `first_fault` finds none, and the fault that
/// it finds is the fault of one of the lines.
pub proof fn lemma_first_fault(start: shakmaty::Chess, lines: Seq<Seq<Seq<u8>>>)
    ensures
        first_fault(start, lines) is None <==> forall|k: int|
            0 <= k < lines.len() ==> line_fault(start, #[trigger] lines[k]) is None,
        first_fault(start, lines) is Some ==> exists|k: int|
            0 <= k < lines.len() && line_fault(start, #[trigger] lines[k]) == first_fault(
                start,
                lines,
            ),
    decreases lines.len(),
{
    if lines.len() > 0 {
        let before = lines.drop_last();
        lemma_first_fault(start, before);
        assert forall|k: int| 0 <= k < before.len() implies before[k] == lines[k] by {}
        if first_fault(start, before) is Some {
            let k = choose|k: int|
                0 <= k < before.len() && line_fault(start, #[trigger] before[k]) == first_fault(
                    start,
                    before,
                );
            assert(lines[k] == before[k]);
        } else {
            assert(lines[lines.len() - 1] == lines.last());
            if line_fault(start, lines.last()) is None {
                assert forall|k: int| 0 <= k < lines.len() implies line_fault(
                    start,
                    #[trigger] lines[k],
                ) is None by {
                    if k < before.len() {
                        assert(before[k] == lines[k]);
                    }
                }
            }
        }
    }
}

/// A fault stays: a list of lines has the fault that `first_fault` finds in
/// any start of the list.
pub proof fn lemma_first_fault_stays(start: shakmaty::Chess, lines: Seq<Seq<Seq<u8>>>, k: int)
    requires
        0 <= k <= lines.len(),
        first_fault(start, lines.take(k)) is Some,
    ensures
        first_fault(start, lines) == first_fault(start, lines.take(k)),
    decreases lines.len() - k,
{
    if k == lines.len() {
        assert(lines.take(k) =~= lines);
    } else {
        let upto = lines.take(k + 1);
        assert(upto.drop_last() =~= lines.take(k));
        lemma_first_fault_stays(start, lines, k + 1);
    }
}

/// The moves that the notations of `line` stand for when they are played in
/// order from `start`, or the fault of the first that cannot be played.
pub open spec fn moves_of(start: shakmaty::Chess, line: Seq<Seq<u8>>) -> Result<
    Seq<Ply>,
    CorpusFault,
>
    decreases line.len(),
{
    if line.len() == 0 {
        Ok(Seq::empty())
    } else {
        match (moves_of(start, line.drop_last()), replay(start, line.drop_last())) {
            (Ok(plies), Ok(pos)) => match reading(pos, line.last()) {
                Err(fault) => Err(fault),
                Ok(m) => Ok(plies.push(move_details(m))),
            },
            (Err(fault), _) => Err(fault),
            (_, Err(fault)) => Err(fault),
        }
    }
}

/// Once a move cannot be played, the line up to it and every longer one have
/// the same fault.
pub proof fn lemma_moves_fault(start: shakmaty::Chess, line: Seq<Seq<u8>>, k: int)
    requires
        0 <= k <= line.len(),
        moves_of(start, line.take(k)) is Err,
    ensures
        moves_of(start, line) == moves_of(start, line.take(k)),
    decreases line.len() - k,
{
    if k == line.len() {
        assert(line.take(k) =~= line);
    } else {
        let upto = line.take(k + 1);
        assert(upto.drop_last() =~= line.take(k));
        lemma_moves_fault(start, line, k + 1);
    }
}

/// The bytes of each of the notations `san_moves`.
pub open spec fn texts_of(san_moves: Seq<&[u8]>) -> Seq<Seq<u8>> {
    Seq::new(san_moves.len(), |k: int| san_moves[k]@)
}

/// `found` is what playing a line gave: the moves `moves`, or their fault.
pub open spec fn same_moves(
    found: Result<Vec<Ply>, CorpusFault>,
    moves: Result<Seq<Ply>, CorpusFault>,
) -> bool {
    match moves {
        Ok(plies) => found matches Ok(list) && list@ == plies,
        Err(fault) => found matches Err(other) && other == fault,
    }
}

/// Plays a line of moves, given by their notations, from the position
/// `start`, and returns the moves.
pub fn make_moves_from(start: &shakmaty::Chess, san_moves: &[&[u8]]) -> (moves: Result<
    Vec<Ply>,
    CorpusFault,
>)
    ensures
        same_moves(moves, moves_of(*start, texts_of(san_moves@))),
{
    let mut result: Vec<Ply> = Vec::with_capacity(san_moves.len());
    let mut pos = copy_position(start);
    let ghost line = texts_of(san_moves@);
    let mut k: usize = 0;
    proof {
        assert(line.take(0) =~= Seq::<Seq<u8>>::empty());
    }
    while k < san_moves.len()
        invariant
            k <= san_moves@.len(),
            line == texts_of(san_moves@),
            moves_of(*start, line.take(k as int)) == Ok::<Seq<Ply>, CorpusFault>(result@),
            replay(*start, line.take(k as int)) == Ok::<shakmaty::Chess, CorpusFault>(pos),
        decreases san_moves@.len() - k,
    {
        proof {
            let upto = line.take(k + 1);
            assert(upto.drop_last() =~= line.take(k as int));
            assert(upto.last() == san_moves@[k as int]@);
        }
        match read_move(&pos, san_moves[k]) {
            Ok(m) => {
                play_unchecked(&mut pos, &m);
                result.push(describe(&m));
            },
            Err(fault) => {
                proof {
                    lemma_moves_fault(*start, line, k + 1);
                }
                return Err(fault);
            },
        }
        k = k + 1;
    }
    proof {
        assert(line.take(k as int) =~= line);
    }
    Ok(result)
}

/// Plays a line of moves, given by their notations, from the first position
/// of a game, and returns the moves.
pub fn make_moves(san_moves: &[&[u8]]) -> (moves: Result<Vec<Ply>, CorpusFault>)
    ensures
        exists|start: shakmaty::Chess| #[trigger]
            same_moves(moves, moves_of(start, texts_of(san_moves@))),
{
    let start = start_position();
    make_moves_from(&start, san_moves)
}

} // verus!
