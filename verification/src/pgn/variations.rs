//! Lines read from one text as a list: every line is a chain of stretches of
//! moves, each stretch hanging on the one before it. An aside in the text
//! takes the place of the move before it, and comes before the line that it
//! parts from.

use super::lexer::{first_token, run_end, Class, Lexeme, Token, TokenIterator};
use super::{pick, share};
use crate::rules::{make_moves, moves_of, same_moves, texts_of, CorpusFault, Ply};
use std::rc::Rc;
use vstd::prelude::*;
use vstd::string::StringSliceAdditionalSpecFns;

verus! {

/// A stretch of moves, and the stretch of moves that leads to it.
pub struct Node<'source> {
    parent: Option<Rc<Node<'source>>>,
    moves: Vec<&'source [u8]>,
}

/// The lines that end at each of `nodes`.
pub open spec fn lines_of(nodes: Seq<Node<'_>>) -> Seq<Seq<Seq<u8>>> {
    Seq::new(nodes.len(), |k: int| nodes[k].line())
}

/// What reading a text gives: its lines, the text behind them, and whether
/// the text was soundly built.
pub struct Parsed {
    pub lines: Seq<Seq<Seq<u8>>>,
    pub rest: Seq<u8>,
    pub sound: bool,
}

/// Reads the lines of `rest`, up to the `)` that ends the first of them or to
/// the end of the tokens. The line read has the moves `stem` behind it and
/// the moves `own` in its last stretch.
///
/// A move is added to the stretch. At a `(` the last move of the stretch is
/// set aside: the aside is read as a line of its own on what is left, its
/// lines come first, and then the line goes on with the move set aside. A
/// `(` with no move in the stretch before it is unsound.
pub open spec fn read_variants(stem: Seq<Seq<u8>>, own: Seq<Seq<u8>>, rest: Seq<u8>) -> Parsed
    decreases rest.len(),
{
    match first_token(rest) {
        None => Parsed {
            lines: seq![stem + own],
            rest: rest.skip(run_end(rest, 0, Class::Space)),
            sound: true,
        },
        Some(scanned) => if !(0 < scanned.end <= rest.len()) {
            Parsed { lines: seq![stem + own], rest, sound: true }
        } else {
            let next = rest.skip(scanned.end);
            match scanned.token {
                Lexeme::EndVariation => Parsed { lines: seq![stem + own], rest: next, sound: true },
                Lexeme::SanMove(text) => read_variants(stem, own.push(text), next),
                Lexeme::StartVariation => if own.len() == 0 {
                    Parsed { lines: Seq::empty(), rest: next, sound: false }
                } else {
                    let base = stem + own.drop_last();
                    let aside = read_variants(base, Seq::empty(), next);
                    if aside.sound && aside.rest.len() <= next.len() {
                        let main = read_variants(base, seq![own.last()], aside.rest);
                        Parsed {
                            lines: aside.lines + main.lines,
                            rest: main.rest,
                            sound: main.sound,
                        }
                    } else {
                        Parsed { lines: aside.lines, rest: aside.rest, sound: false }
                    }
                },
                _ => read_variants(stem, own, next),
            }
        },
    }
}

/// The text can be read as a list of lines: every `(` has a move of its
/// stretch before it.
pub open spec fn well_formed(text: Seq<u8>) -> bool {
    read_variants(Seq::empty(), Seq::empty(), text).sound
}

impl<'source> Node<'source> {
    /// The moves that lead to this stretch.
    pub closed spec fn stem(&self) -> Seq<Seq<u8>>
        decreases self,
    {
        match self.parent {
            None => Seq::empty(),
            Some(parent) => parent.stem() + texts_of(parent.moves@),
        }
    }

    /// The moves of this stretch.
    pub closed spec fn own(&self) -> Seq<Seq<u8>> {
        texts_of(self.moves@)
    }

    /// The whole line: the moves that lead to this stretch, then its own.
    pub open spec fn line(&self) -> Seq<Seq<u8>> {
        self.stem() + self.own()
    }

    fn new() -> (node: Self)
        ensures
            node.stem() == Seq::<Seq<u8>>::empty(),
            node.own() == Seq::<Seq<u8>>::empty(),
    {
        let node = Node { parent: None, moves: Vec::new() };
        proof {
            assert(node.own() =~= Seq::<Seq<u8>>::empty());
        }
        node
    }

    fn push(&mut self, m: &'source [u8])
        ensures
            final(self).stem() == old(self).stem(),
            final(self).own() == old(self).own().push(m@),
    {
        self.moves.push(m);
        proof {
            assert(self.own() =~= old(self).own().push(m@));
        }
    }

    /// Two new stretches without moves, both hanging on this one.
    fn fork(self) -> (pair: (Self, Self))
        ensures
            pair.0.stem() == self.line(),
            pair.0.own() == Seq::<Seq<u8>>::empty(),
            pair.1.stem() == self.line(),
            pair.1.own() == Seq::<Seq<u8>>::empty(),
    {
        let this: Rc<Self> = Rc::new(self);
        let a = Node { parent: Some(share(&this)), moves: Vec::new() };
        let b = Node { parent: Some(this), moves: Vec::new() };
        proof {
            assert(a.own() =~= Seq::<Seq<u8>>::empty());
            assert(b.own() =~= Seq::<Seq<u8>>::empty());
        }
        (a, b)
    }

    /// The moves of the whole line, from the first to the last.
    pub fn resolve(&self) -> (moves: Vec<&'source [u8]>)
        ensures
            texts_of(moves@) == self.line(),
        decreases self,
    {
        let mut moves: Vec<&'source [u8]> = match &self.parent {
            None => Vec::new(),
            Some(node) => node.resolve(),
        };
        let ghost stem = texts_of(moves@);
        proof {
            assert(stem =~= self.stem());
        }
        let mut k: usize = 0;
        while k < self.moves.len()
            invariant
                k <= self.moves@.len(),
                texts_of(moves@) == stem + texts_of(self.moves@.take(k as int)),
            decreases self.moves@.len() - k,
        {
            let ghost before = moves@;
            moves.push(self.moves[k]);
            proof {
                let grown = texts_of(moves@);
                let wanted = stem + texts_of(self.moves@.take(k + 1));
                assert(texts_of(before).len() == before.len());
                assert(grown.len() == wanted.len());
                assert forall|i: int| 0 <= i < grown.len() implies grown[i] == wanted[i] by {
                    if i < before.len() {
                        assert(grown[i] == texts_of(before)[i]);
                        assert(texts_of(before)[i] == (stem + texts_of(
                            self.moves@.take(k as int),
                        ))[i]);
                        if i >= stem.len() {
                            assert(self.moves@.take(k as int)[i - stem.len()] == self.moves@.take(
                                k + 1,
                            )[i - stem.len()]);
                        }
                    } else {
                        assert(self.moves@.take(k + 1)[k as int] == self.moves@[k as int]);
                    }
                }
                assert(grown =~= wanted);
            }
            k = k + 1;
        }
        proof {
            assert(self.moves@.take(k as int) =~= self.moves@);
        }
        moves
    }

    /// Reads lines from the tokens into `variants`, this stretch being the
    /// last of the line that is read first. Says whether the tokens were
    /// soundly built; where they were not, reading stops at the fault.
    fn parse_internal(self, iter: &mut TokenIterator<'source>, variants: &mut Vec<Self>) -> (sound:
        bool)
        ensures
            sound == read_variants(self.stem(), self.own(), old(iter)@).sound,
            sound ==> lines_of(final(variants)@) == lines_of(old(variants)@) + read_variants(
                self.stem(),
                self.own(),
                old(iter)@,
            ).lines,
            sound ==> final(iter)@ == read_variants(self.stem(), self.own(), old(iter)@).rest,
            final(iter)@.len() <= old(iter)@.len(),
        decreases old(iter)@.len(),
    {
        let ghost whole = read_variants(self.stem(), self.own(), iter@);
        let ghost before = lines_of(variants@);
        let mut main = self;
        proof {
            assert(before + whole.lines =~= lines_of(variants@) + whole.lines);
        }
        loop
            invariant
                whole == read_variants(self.stem(), self.own(), old(iter)@),
                before == lines_of(old(variants)@),
                iter@.len() <= old(iter)@.len(),
                whole.sound == read_variants(main.stem(), main.own(), iter@).sound,
                whole.sound ==> whole.rest == read_variants(main.stem(), main.own(), iter@).rest,
                whole.sound ==> before + whole.lines == lines_of(variants@) + read_variants(
                    main.stem(),
                    main.own(),
                    iter@,
                ).lines,
            decreases iter@.len(),
        {
            let ghost found = lines_of(variants@);
            let token = match iter.next() {
                Some(token) => token,
                None => {
                    let ghost last = main.line();
                    variants.push(main);
                    proof {
                        assert(lines_of(variants@) =~= found + seq![last]);
                    }
                    return true;
                },
            };
            match token {
                Token::StartVariation => {
                    let ghost own = main.own();
                    let ghost stem = main.stem();
                    let last_move = match main.moves.pop() {
                        Some(last_move) => last_move,
                        None => {
                            return false;
                        },
                    };
                    proof {
                        assert(main.own() =~= own.drop_last());
                        assert(last_move@ == own.last());
                    }
                    let ghost base = stem + own.drop_last();
                    let ghost next = iter@;
                    let (new_main, variant) = main.fork();
                    if !variant.parse_internal(iter, variants) {
                        return false;
                    }
                    main = new_main;
                    main.push(last_move);
                    proof {
                        let aside = read_variants(base, Seq::<Seq<u8>>::empty(), next);
                        assert(main.own() =~= seq![own.last()]);
                        assert(main.stem() == base);
                        let rest = read_variants(base, seq![own.last()], aside.rest);
                        if whole.sound {
                            assert(found + (aside.lines + rest.lines) =~= (found + aside.lines)
                                + rest.lines);
                        }
                    }
                },
                Token::EndVariation => {
                    let ghost last = main.line();
                    variants.push(main);
                    proof {
                        assert(lines_of(variants@) =~= found + seq![last]);
                    }
                    return true;
                },
                Token::SanMove(m) => {
                    main.push(m);
                },
                _ => {},
            }
        }
    }

    /// The lines of a text, asides before the lines that they part from.
    pub fn parse(pgn: &'source str) -> (lines: Vec<Self>)
        requires
            well_formed(pgn.spec_bytes()),
        ensures
            lines_of(lines@) == read_variants(
                Seq::empty(),
                Seq::empty(),
                pgn.spec_bytes(),
            ).lines,
    {
        let mut result: Vec<Self> = Vec::new();
        let root = Self::new();
        let mut iter = TokenIterator::new(pgn.as_bytes());
        let sound = root.parse_internal(&mut iter, &mut result);
        proof {
            assert(lines_of(Seq::<Node<'source>>::empty()) =~= Seq::<Seq<Seq<u8>>>::empty());
            assert(lines_of(result@) =~= read_variants(
                Seq::empty(),
                Seq::empty(),
                pgn.spec_bytes(),
            ).lines);
        }
        result
    }

    /// The lines of a text if it is well formed, and `None` if it is not.
    pub fn try_parse(pgn: &'source str) -> (lines: Option<Vec<Self>>)
        ensures
            lines is Some == well_formed(pgn.spec_bytes()),
            lines matches Some(found) ==> lines_of(found@) == read_variants(
                Seq::empty(),
                Seq::empty(),
                pgn.spec_bytes(),
            ).lines,
    {
        let mut result: Vec<Self> = Vec::new();
        let root = Self::new();
        let mut iter = TokenIterator::new(pgn.as_bytes());
        if root.parse_internal(&mut iter, &mut result) {
            proof {
                assert(lines_of(Seq::<Node<'source>>::empty()) =~= Seq::<Seq<Seq<u8>>>::empty());
                assert(lines_of(result@) =~= read_variants(
                    Seq::empty(),
                    Seq::empty(),
                    pgn.spec_bytes(),
                ).lines);
            }
            Some(result)
        } else {
            None
        }
    }
}

/// The lines of one text.
pub struct Variations<'source>(pub Vec<Node<'source>>);

impl<'source> Variations<'source> {
    /// The lines that these are.
    pub open spec fn lines(&self) -> Seq<Seq<Seq<u8>>> {
        lines_of(self.0@)
    }

    /// The lines of a text, asides before the lines that they part from.
    pub fn parse(pgn: &'source str) -> (all: Self)
        requires
            well_formed(pgn.spec_bytes()),
        ensures
            all.lines() == read_variants(Seq::empty(), Seq::empty(), pgn.spec_bytes()).lines,
    {
        Variations(Node::parse(pgn))
    }

    /// The moves of one of the lines, picked at random, each line as likely
    /// as any other; `None` if there is no line.
    pub fn choose_random(&self, rng: &mut rand::rngs::ThreadRng) -> (moves: Option<
        Result<Vec<Ply>, CorpusFault>,
    >)
        ensures
            moves is Some == (self.lines().len() > 0),
            moves matches Some(played) ==> exists|k: int, start: shakmaty::Chess|
                0 <= k < self.lines().len() && #[trigger] same_moves(
                    played,
                    moves_of(start, self.lines()[k]),
                ),
    {
        match pick(rng, &self.0) {
            None => None,
            Some(node) => {
                let line = node.resolve();
                let played = make_moves(line.as_slice());
                proof {
                    let k = choose|k: int| 0 <= k < self.0@.len() && self.0@[k] == *node;
                    assert(texts_of(line@) == self.lines()[k]);
                }
                Some(played)
            },
        }
    }
}

} // verus!
