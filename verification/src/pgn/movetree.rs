//! The tree of moves: every line of every text that was added, with shared
//! openings stored once and sub-variations attached where they depart.

use super::lexer::{
    first_token, lemma_run_end_bounds, lemma_start_is_a_bracket, run_end, Class, Lexeme, Token,
    TokenIterator,
};
use super::tree::{Node, Tree, TreeView};
use super::{pick, share};
use crate::rules::{
    copy_position, describe, first_fault, lemma_first_fault, lemma_first_fault_stays,
    lemma_line_fault_stays, lemma_sound_step, line_fault, move_details, play_unchecked,
    position_after, read_move, reading, replay, start_position, CorpusFault, Ply,
};
use std::rc::Rc;
use vstd::prelude::*;
use vstd::std_specs::cmp::PartialEqSpec;
use vstd::string::StringSliceAdditionalSpecFns;

verus! {

broadcast use vstd::slice::group_slice_axioms;

/// The notation of one move: a stretch of the text it was read from.
#[derive(Clone, Copy, Debug)]
pub struct Span<'source> {
    pub bytes: &'source [u8],
}

impl<'source> View for Span<'source> {
    type V = Seq<u8>;

    open spec fn view(&self) -> Seq<u8> {
        self.bytes@
    }
}

impl<'source> PartialEq for Span<'source> {
    /// Two spans are equal when they hold the same bytes, wherever they lie.
    fn eq(&self, other: &Self) -> (same: bool) {
        if self.bytes.len() != other.bytes.len() {
            return false;
        }
        let mut i: usize = 0;
        while i < self.bytes.len()
            invariant
                i <= self.bytes@.len(),
                self.bytes@.len() == other.bytes@.len(),
                forall|k: int| 0 <= k < i ==> self.bytes@[k] == other.bytes@[k],
            decreases self.bytes@.len() - i,
        {
            if self.bytes[i] != other.bytes[i] {
                return false;
            }
            i = i + 1;
        }
        proof {
            assert(self.bytes@ =~= other.bytes@);
        }
        true
    }
}

impl<'source> vstd::std_specs::cmp::PartialEqSpecImpl for Span<'source> {
    open spec fn obeys_eq_spec() -> bool {
        true
    }

    open spec fn eq_spec(&self, other: &Self) -> bool {
        self.bytes@ == other.bytes@
    }
}

/// The span that holds the bytes `text`.
pub open spec fn span_of<'source>(text: Seq<u8>) -> Span<'source> {
    choose|span: Span<'source>| span@ == text
}

/// A span is known by its bytes: `span_of` gives back every span from its view.
pub proof fn lemma_span_of<'source>(span: Span<'source>)
    ensures
        span_of::<'source>(span@) == span,
{
    let chosen = span_of::<'source>(span@);
    assert(chosen@ == span@);
    assert(chosen.bytes =~= span.bytes);
}

/// How the reading of a text stands: the tree so far, the node that the line
/// being read has reached, and the text that is still unread.
pub struct Reading<'source> {
    pub tree: TreeView<Span<'source>>,
    pub main: Node,
    pub rest: Seq<u8>,
}

/// Reads one line of moves from `rest` into `tree`, from node `main` on, up to
/// the `)` that ends the line or to the end of the tokens.
///
/// A move extends the line: the child of `main` that holds it is found or
/// made, and becomes `main`. After a `(` (then `pending` holds) the next move
/// instead opens an aside: it is a sibling of `main`, found or made, and the
/// aside is read from it as a line of its own before the line goes on from
/// `main`. Every other token is passed over.
pub open spec fn read_line<'source>(
    tree: TreeView<Span<'source>>,
    main: Node,
    pending: bool,
    rest: Seq<u8>,
) -> Reading<'source>
    decreases rest.len(),
{
    match first_token(rest) {
        None => Reading { tree, main, rest: rest.skip(run_end(rest, 0, Class::Space)) },
        Some(scanned) => if !(0 < scanned.end <= rest.len()) {
            Reading { tree, main, rest }
        } else {
            let next = rest.skip(scanned.end);
            match scanned.token {
                Lexeme::EndVariation => Reading { tree, main, rest: next },
                Lexeme::StartVariation => read_line(tree, main, true, next),
                Lexeme::SanMove(text) => if pending {
                    let forked = tree.fork_or_find(main, span_of(text));
                    let aside = read_line(forked.0, forked.1, false, next);
                    if aside.rest.len() <= next.len() {
                        read_line(aside.tree, main, false, aside.rest)
                    } else {
                        aside
                    }
                } else {
                    let grown = tree.branch_or_find(main, span_of(text));
                    read_line(grown.0, grown.1, false, next)
                },
                _ => read_line(tree, main, pending, next),
            }
        },
    }
}

/// Whether a line of moves is soundly built, and the text behind it.
pub struct Checked {
    pub sound: bool,
    pub rest: Seq<u8>,
}

/// Checks the line of moves at the start of `rest` without a tree. A line is
/// unsound where a `(` follows a `(` with no move between them, and where an
/// aside opens before the first move of a line that starts at the root
/// (`anchored` says that the line's node has a parent: an aside is a sibling
/// of that node, and the root has none).
pub open spec fn check_line(anchored: bool, pending: bool, rest: Seq<u8>) -> Checked
    decreases rest.len(),
{
    match first_token(rest) {
        None => Checked { sound: true, rest: rest.skip(run_end(rest, 0, Class::Space)) },
        Some(scanned) => if !(0 < scanned.end <= rest.len()) {
            Checked { sound: true, rest }
        } else {
            let next = rest.skip(scanned.end);
            match scanned.token {
                Lexeme::EndVariation => Checked { sound: true, rest: next },
                Lexeme::StartVariation => if pending {
                    Checked { sound: false, rest: next }
                } else {
                    check_line(anchored, true, next)
                },
                Lexeme::SanMove(_) => if pending {
                    if !anchored {
                        Checked { sound: false, rest: next }
                    } else {
                        let aside = check_line(true, false, next);
                        if aside.sound && aside.rest.len() <= next.len() {
                            check_line(anchored, false, aside.rest)
                        } else {
                            Checked { sound: false, rest: aside.rest }
                        }
                    }
                } else {
                    check_line(true, false, next)
                },
                _ => check_line(anchored, pending, next),
            }
        },
    }
}

/// The moves of the line that a text starts with, asides left out, up to the
/// `)` that ends the line or to the end of the tokens.
pub open spec fn main_moves(pending: bool, rest: Seq<u8>) -> Seq<Seq<u8>>
    decreases rest.len(),
{
    match first_token(rest) {
        None => Seq::empty(),
        Some(scanned) => if !(0 < scanned.end <= rest.len()) {
            Seq::empty()
        } else {
            let next = rest.skip(scanned.end);
            match scanned.token {
                Lexeme::EndVariation => Seq::empty(),
                Lexeme::StartVariation => main_moves(true, next),
                Lexeme::SanMove(text) => if pending {
                    let aside = check_line(true, false, next);
                    if aside.rest.len() <= next.len() {
                        main_moves(false, aside.rest)
                    } else {
                        Seq::empty()
                    }
                } else {
                    seq![text] + main_moves(false, next)
                },
                _ => main_moves(pending, next),
            }
        },
    }
}

/// The text can be added to a tree of moves: no `(` follows a `(` without a
/// move between them, and no aside opens before the first move of the text.
pub open spec fn well_formed(text: Seq<u8>) -> bool {
    check_line(false, false, text).sound
}

/// The tree of all lines that were added.
pub struct MoveTree<'source> {
    tree: Tree<Span<'source>>,
}

impl<'source> View for MoveTree<'source> {
    type V = TreeView<Span<'source>>;

    closed spec fn view(&self) -> TreeView<Span<'source>> {
        self.tree@
    }
}

/// What holds of the tree of moves at all times, told of its model: it is a
/// sound tree, every node but the root holds a move, and no two children of a
/// node hold the same move.
pub open spec fn sound_moves<'source>(tree: TreeView<Span<'source>>) -> bool {
    &&& tree.wf()
    &&& tree.complete()
    &&& tree.distinct_siblings()
}

impl<'source> MoveTree<'source> {
    /// The arena of the tree is sound.
    pub closed spec fn inv(&self) -> bool {
        self.tree.inv()
    }

    /// The tree is a sound tree of moves.
    pub open spec fn wf(&self) -> bool {
        self.inv() && sound_moves(self@)
    }

    /// A tree without moves: its root is its only line.
    pub fn new() -> (tree: Self)
        ensures
            tree.wf(),
            tree@ == TreeView::<Span<'source>>::single(),
    {
        let tree = MoveTree { tree: Tree::new() };
        proof {
            assert(tree@.wf_node(0));
        }
        tree
    }

    /// The tree itself, for walking it node by node.
    pub fn tree(&self) -> (tree: &Tree<Span<'source>>)
        ensures
            tree@ == self@,
            self.wf() ==> tree.wf(),
    {
        &self.tree
    }

    /// Adds the lines of a text to the tree. What the tree held stays as it was.
    pub fn add_pgn(&mut self, pgn: &'source str)
        requires
            old(self).wf(),
            well_formed(pgn.spec_bytes()),
        ensures
            final(self).wf(),
            final(self)@ == read_line(
                old(self)@,
                old(self)@.root,
                false,
                pgn.spec_bytes(),
            ).tree,
            final(self)@.extends(old(self)@),
            final(self)@.contains(
                read_line(old(self)@, old(self)@.root, false, pgn.spec_bytes()).main,
            ),
            line_of(
                final(self)@,
                read_line(old(self)@, old(self)@.root, false, pgn.spec_bytes()).main,
            ) == main_moves(false, pgn.spec_bytes()),
    {
        let mut iter = TokenIterator::new(pgn.as_bytes());
        let root = self.tree.root();
        proof {
            assert(self@.wf_node(root.index as int));
            assert(line_of(self@, root) =~= Seq::<Seq<u8>>::empty());
        }
        self.parse_internal(root, &mut iter);
        proof {
            assert(Seq::<Seq<u8>>::empty() + main_moves(false, pgn.spec_bytes()) =~= main_moves(
                false,
                pgn.spec_bytes(),
            ));
        }
    }

    /// Adds the lines of a text to the tree if the text is well formed, and
    /// says whether it was; a text that is not leaves the tree as it is.
    pub fn try_add_pgn(&mut self, pgn: &'source str) -> (added: bool)
        requires
            old(self).wf(),
        ensures
            final(self).wf(),
            added == well_formed(pgn.spec_bytes()),
            added ==> final(self)@ == read_line(
                old(self)@,
                old(self)@.root,
                false,
                pgn.spec_bytes(),
            ).tree,
            added ==> line_of(
                final(self)@,
                read_line(old(self)@, old(self)@.root, false, pgn.spec_bytes()).main,
            ) == main_moves(false, pgn.spec_bytes()),
            !added ==> final(self)@ == old(self)@,
            final(self)@.extends(old(self)@),
    {
        if check_pgn(pgn) {
            self.add_pgn(pgn);
            true
        } else {
            proof {
                let view = self@;
                lemma_extends_self(view);
            }
            false
        }
    }

    /// Reads one line from the tokens into the tree, from `node` on, with the
    /// asides that part from it.
    fn parse_internal(&mut self, node: Node, iter: &mut TokenIterator<'source>)
        requires
            old(self).wf(),
            old(self)@.contains(node),
            check_line(old(self)@.node(node).parent is Some, false, old(iter)@).sound,
        ensures
            final(self).wf(),
            final(self)@ == read_line(old(self)@, node, false, old(iter)@).tree,
            final(iter)@ == read_line(old(self)@, node, false, old(iter)@).rest,
            final(iter)@ == check_line(
                old(self)@.node(node).parent is Some,
                false,
                old(iter)@,
            ).rest,
            final(iter)@.len() <= old(iter)@.len(),
            final(self)@.extends(old(self)@),
            final(self)@.contains(read_line(old(self)@, node, false, old(iter)@).main),
            line_of(final(self)@, read_line(old(self)@, node, false, old(iter)@).main) == line_of(
                old(self)@,
                node,
            ) + main_moves(false, old(iter)@),
        decreases old(iter)@.len(),
    {
        let ghost start_tree = self@;
        let ghost start_text = iter@;
        let ghost anchored = self@.node(node).parent is Some;
        let mut main = node;
        let mut pending = false;
        proof {
            lemma_extends_self(self@);
        }
        let ghost whole = line_of(start_tree, node) + main_moves(false, start_text);
        loop
            invariant
                start_tree == old(self)@,
                start_text == old(iter)@,
                anchored == (start_tree.node(node).parent is Some),
                self.wf(),
                self@.contains(main),
                self@.extends(start_tree),
                iter@.len() <= start_text.len(),
                read_line(start_tree, node, false, start_text) == read_line(
                    self@,
                    main,
                    pending,
                    iter@,
                ),
                check_line(anchored, false, start_text) == check_line(
                    self@.node(main).parent is Some,
                    pending,
                    iter@,
                ),
                check_line(anchored, false, start_text).sound,
                whole == line_of(start_tree, node) + main_moves(false, start_text),
                line_of(self@, main) + main_moves(pending, iter@) == whole,
            decreases iter@.len(),
        {
            let ghost tree = self@;
            let ghost so_far = line_of(self@, main);
            let token = match iter.next() {
                Some(token) => token,
                None => {
                    proof {
                        assert(so_far + Seq::<Seq<u8>>::empty() =~= so_far);
                    }
                    return ;
                },
            };
            match token {
                Token::SanMove(bytes) => {
                    let span = Span { bytes };
                    proof {
                        lemma_span_of(span);
                    }
                    if pending {
                        pending = false;
                        proof {
                            assert(tree.wf_node(main.index as int));
                            assert(tree.with_parent_of(main) == tree);
                            let parent = tree.node(main).parent->0;
                            if !tree.holds(main, span) {
                                lemma_grown(tree, parent, span);
                            }
                        }
                        let fork = main.fork_or_find(&mut self.tree, span);
                        let ghost forked = self@;
                        proof {
                            assert(forked.extends(tree));
                            forked.lemma_extends_trans(tree, start_tree);
                            assert(forked.node(fork).parent is Some);
                        }
                        self.parse_internal(fork, iter);
                        proof {
                            self@.lemma_extends_trans(forked, start_tree);
                            self@.lemma_extends_trans(forked, tree);
                            lemma_extends_line(self@, tree, main);
                        }
                    } else {
                        proof {
                            lemma_grown(tree, main, span);
                        }
                        let ghost parent = main;
                        main = main.branch_or_find(&mut self.tree, span);
                        proof {
                            self@.lemma_extends_trans(tree, start_tree);
                            lemma_extends_line(self@, tree, parent);
                            assert(self@.node(main).parent == Some(parent));
                            assert(self@.wf_node(self@.root.index as int));
                            lemma_line_step(self@, main);
                            tree.lemma_find_among(tree.node(parent).children, span);
                            assert(self@.node(main).value->0@ == span@);
                            assert(so_far.push(span@) + main_moves(false, iter@) =~= so_far + (
                            seq![span@] + main_moves(false, iter@)));
                        }
                    }
                },
                Token::StartVariation => {
                    pending = true;
                },
                Token::EndVariation => {
                    proof {
                        assert(so_far + Seq::<Seq<u8>>::empty() =~= so_far);
                    }
                    return ;
                },
                _ => {},
            }
        }
    }
}

/// Growing a tree of moves changes no line: the line that ends at a node of
/// the old tree is the same in the new one.
pub proof fn lemma_extends_line<'source>(
    tree: TreeView<Span<'source>>,
    old: TreeView<Span<'source>>,
    n: Node,
)
    requires
        tree.wf(),
        old.wf(),
        tree.extends(old),
        old.contains(n),
    ensures
        line_of(tree, n) == line_of(old, n),
{
    tree.lemma_extends_path(old, n);
    old.lemma_path(n);
    assert(line_of(tree, n) =~= line_of(old, n));
}

/// Every tree extends itself.
pub proof fn lemma_extends_self<T>(tree: TreeView<T>)
    ensures
        tree.extends(tree),
{
    assert forall|i: int| 0 <= i < tree.nodes.len() implies tree.nodes[i].children.is_prefix_of(
        #[trigger] tree.nodes[i].children,
    ) by {
        let a = tree.nodes[i].children;
        assert(a =~= a.subrange(0, a.len() as int));
    }
}

/// Finding or making the child that holds a move keeps a tree of moves sound.
proof fn lemma_grown<'source>(tree: TreeView<Span<'source>>, parent: Node, span: Span<'source>)
    requires
        sound_moves(tree),
        tree.contains(parent),
    ensures
        tree.branch_or_find(parent, span).0.nodes.len() <= usize::MAX ==> {
            &&& sound_moves(tree.branch_or_find(parent, span).0)
            &&& tree.branch_or_find(parent, span).0.extends(tree)
            &&& tree.branch_or_find(parent, span).0.node(
                tree.branch_or_find(parent, span).1,
            ).parent == Some(parent)
        },
{
    if tree.branch_or_find(parent, span).0.nodes.len() <= usize::MAX {
        tree.lemma_branch_or_find(parent, span);
    }
}

/// Checks one line of the tokens, with the asides that part from it.
fn check_internal(anchored: bool, iter: &mut TokenIterator<'_>) -> (sound: bool)
    ensures
        sound == check_line(anchored, false, old(iter)@).sound,
        sound ==> final(iter)@ == check_line(anchored, false, old(iter)@).rest,
        final(iter)@.len() <= old(iter)@.len(),
    decreases old(iter)@.len(),
{
    let ghost start_text = iter@;
    let mut anchored_now = anchored;
    let mut pending = false;
    loop
        invariant
            start_text == old(iter)@,
            iter@.len() <= start_text.len(),
            check_line(anchored, false, start_text) == check_line(anchored_now, pending, iter@),
        decreases iter@.len(),
    {
        let token = match iter.next() {
            Some(token) => token,
            None => {
                return true;
            },
        };
        match token {
            Token::SanMove(_) => {
                if pending {
                    if !anchored_now {
                        return false;
                    }
                    pending = false;
                    if !check_internal(true, iter) {
                        return false;
                    }
                } else {
                    anchored_now = true;
                }
            },
            Token::StartVariation => {
                if pending {
                    return false;
                }
                pending = true;
            },
            Token::EndVariation => {
                return true;
            },
            _ => {},
        }
    }
}

/// Whether a text can be added to a tree of moves.
pub fn check_pgn(pgn: &str) -> (sound: bool)
    ensures
        sound == well_formed(pgn.spec_bytes()),
{
    let mut iter = TokenIterator::new(pgn.as_bytes());
    check_internal(false, &mut iter)
}

/// The notations of the moves that `nodes` hold.
pub open spec fn spans_of<'source>(tree: TreeView<Span<'source>>, nodes: Seq<Node>) -> Seq<
    Seq<u8>,
> {
    Seq::new(nodes.len(), |k: int| tree.node(nodes[k]).value->0@)
}

/// The line that ends at node `n`: the notations of the moves on the way from
/// the root to `n`.
pub open spec fn line_of<'source>(tree: TreeView<Span<'source>>, n: Node) -> Seq<Seq<u8>> {
    spans_of(tree, tree.path(n))
}

/// The moves that the texts `texts` stand for in `pos`, each read in `pos`
/// itself, or the fault of the first that stands for none.
pub open spec fn read_all(pos: shakmaty::Chess, texts: Seq<Seq<u8>>) -> Result<
    Seq<Ply>,
    CorpusFault,
>
    decreases texts.len(),
{
    if texts.len() == 0 {
        Ok(Seq::empty())
    } else {
        match read_all(pos, texts.drop_last()) {
            Err(fault) => Err(fault),
            Ok(plies) => match reading(pos, texts.last()) {
                Err(fault) => Err(fault),
                Ok(m) => Ok(plies.push(move_details(m))),
            },
        }
    }
}

/// One line of the tree: the way from the root to one of its nodes.
pub struct Variation<'source> {
    tree: Rc<MoveTree<'source>>,
    node: Node,
}

/// All complete lines of a tree, in the order in which a depth-first walk
/// finds them.
pub struct Variations<'source> {
    tree: Rc<MoveTree<'source>>,
    variations: Vec<Node>,
}

impl<'source> MoveTree<'source> {
    /// Every complete line of the tree: one for each childless node, in the
    /// order of a depth-first walk that takes older children first.
    pub fn get_all_variations(self: Rc<Self>) -> (all: Variations<'source>)
        requires
            self.wf(),
        ensures
            all.wf(),
            all.tree() == self@,
            all.nodes() == self@.leaves(),
    {
        let mut variations: Vec<Node> = Vec::new();
        let root = self.tree.root();
        self.get_all_variations_from_node(root, &mut variations);
        proof {
            self@.lemma_leaves_nonempty(root);
            self@.lemma_leaves_from(root);
        }
        Variations { tree: self, variations }
    }

    /// Adds the childless nodes at or below `node` to `result`, depth first.
    fn get_all_variations_from_node(&self, node: Node, result: &mut Vec<Node>)
        requires
            self.wf(),
            self@.contains(node),
        ensures
            final(result)@ == old(result)@ + self@.leaves_from(node),
        decreases self@.nodes.len() - self@.node(node).depth,
    {
        let children = node.get_children(&self.tree);
        proof {
            assert(self@.wf_node(node.index as int));
        }
        if children.len() == 0 {
            result.push(node);
            proof {
                assert(result@ =~= old(result)@ + self@.leaves_from(node));
            }
            return ;
        }
        let mut k: usize = 0;
        proof {
            assert(result@ + self@.leaves_among(node, 0) =~= old(result)@ + self@.leaves_from(
                node,
            ));
        }
        while k < children.len()
            invariant
                self.wf(),
                self@.contains(node),
                children@ == self@.node(node).children,
                k <= children@.len(),
                result@ + self@.leaves_among(node, k as int) == old(result)@ + self@.leaves_from(
                    node,
                ),
            decreases children@.len() - k,
        {
            let child = children[k];
            let ghost before = result@;
            proof {
                assert(self@.wf_node(node.index as int));
                assert(self@.contains(child));
                assert(self@.wf_node(child.index as int));
            }
            self.get_all_variations_from_node(child, result);
            proof {
                assert(result@ + self@.leaves_among(node, k + 1) =~= before + self@.leaves_among(
                    node,
                    k as int,
                ));
            }
            k = k + 1;
        }
        proof {
            assert(result@ + self@.leaves_among(node, k as int) =~= result@);
        }
    }

    /// Adds the nodes on the way from the root to `node` to `result`.
    fn resolve_variation_internal(&self, node: Node, result: &mut Vec<Node>)
        requires
            self.wf(),
            self@.contains(node),
        ensures
            final(result)@ == old(result)@ + self@.path(node),
        decreases self@.node(node).depth,
    {
        proof {
            assert(self@.wf_node(node.index as int));
        }
        match node.try_get_parent(&self.tree) {
            Some(parent) => {
                self.resolve_variation_internal(parent, result);
                result.push(node);
                proof {
                    assert(result@ =~= old(result)@ + self@.path(node));
                }
            },
            None => {
                proof {
                    assert(result@ =~= old(result)@ + self@.path(node));
                }
            },
        }
    }

    /// The nodes on the way from the root to `node`, the root left out.
    fn resolve_nodes(&self, node: Node) -> (nodes: Vec<Node>)
        requires
            self.wf(),
            self@.contains(node),
        ensures
            nodes@ == self@.path(node),
    {
        let mut count: usize = 0;
        let mut walker = node;
        proof {
            self@.lemma_path(node);
            assert(self@.wf_node(node.index as int));
        }
        loop
            invariant
                self.wf(),
                self@.contains(walker),
                self@.contains(node),
                count + self@.node(walker).depth == self@.node(node).depth,
                self@.node(node).depth < self@.nodes.len() <= usize::MAX,
            decreases self@.node(walker).depth,
        {
            proof {
                assert(self@.wf_node(walker.index as int));
            }
            match walker.try_get_parent(&self.tree) {
                Some(parent) => {
                    proof {
                        assert(self@.wf_node(parent.index as int));
                    }
                    count = count + 1;
                    walker = parent;
                },
                None => {
                    break ;
                },
            }
        }
        let mut nodes: Vec<Node> = Vec::with_capacity(count);
        self.resolve_variation_internal(node, &mut nodes);
        proof {
            assert(nodes@ =~= self@.path(node));
        }
        nodes
    }
}

impl<'source> Variation<'source> {
    /// The tree that the line belongs to.
    pub closed spec fn tree(&self) -> TreeView<Span<'source>> {
        self.tree@
    }

    /// The node at which the line ends.
    pub closed spec fn leaf(&self) -> Node {
        self.node
    }

    /// The line lies in a sound tree of moves.
    pub closed spec fn wf(&self) -> bool {
        self.tree.wf() && self.tree@.contains(self.node)
    }

    /// The notations of the moves of the line, in order.
    pub open spec fn line(&self) -> Seq<Seq<u8>> {
        line_of(self.tree(), self.leaf())
    }

    /// The line of `tree` that ends at `node`.
    fn new(tree: Rc<MoveTree<'source>>, node: Node) -> (line: Self)
        requires
            tree.wf(),
            tree@.contains(node),
        ensures
            line.wf(),
            line.tree() == tree@,
            line.leaf() == node,
    {
        Variation { tree, node }
    }

    /// The node at which the line ends.
    pub fn node(&self) -> (node: Node)
        ensures
            node == self.leaf(),
    {
        self.node
    }

    /// The moves of the line from the first to the last, each as the stretch
    /// of text that it was read from.
    pub fn resolve(&self) -> (moves: Vec<&'source [u8]>)
        requires
            self.wf(),
        ensures
            moves@.len() == self.line().len(),
            forall|k: int| 0 <= k < moves@.len() ==> (#[trigger] moves@[k])@ == self.line()[k],
    {
        let nodes = self.tree.resolve_nodes(self.node);
        let mut moves: Vec<&'source [u8]> = Vec::with_capacity(nodes.len());
        let mut k: usize = 0;
        proof {
            self.tree@.lemma_path(self.node);
        }
        while k < nodes.len()
            invariant
                self.wf(),
                nodes@ == self.tree@.path(self.node),
                k <= nodes@.len(),
                moves@.len() == k,
                forall|j: int| 0 <= j < k ==> (#[trigger] moves@[j])@ == self.line()[j],
                forall|j: int|
                    0 <= j < nodes@.len() ==> {
                        &&& self.tree@.contains(#[trigger] nodes@[j])
                        &&& nodes@[j] != self.tree@.root
                    },
            decreases nodes@.len() - k,
        {
            let node = nodes[k];
            proof {
                assert(self.tree@.contains(nodes@[k as int]));
                assert(self.tree@.nodes[node.index as int].value is Some);
            }
            let span = node.value(&self.tree.tree).unwrap();
            moves.push(span.bytes);
            k = k + 1;
        }
        moves
    }

    /// A cursor at the start of the line, with `start` as the position before
    /// the first move.
    pub fn iter_from(&self, start: &shakmaty::Chess) -> (cursor: VariationIterator<'source>)
        requires
            self.wf(),
        ensures
            cursor.wf(),
            cursor.tree() == self.tree(),
            cursor.nodes() == self.tree().path(self.leaf()),
            cursor.depth() == 0,
            cursor.origin() == *start,
            cursor.replayed() == *start,
    {
        let nodes = self.tree.resolve_nodes(self.node);
        let origin = copy_position(start);
        let pos = copy_position(start);
        proof {
            self.tree@.lemma_path(self.node);
            assert(spans_of(self.tree@, nodes@).take(0) =~= Seq::<Seq<u8>>::empty());
        }
        VariationIterator {
            tree: share(&self.tree),
            nodes,
            leaf: self.node,
            index: 0,
            start: origin,
            pos,
        }
    }

    /// A cursor at the start of the line, with the position before the first
    /// move of a game.
    pub fn iter(&self) -> (cursor: VariationIterator<'source>)
        requires
            self.wf(),
        ensures
            cursor.wf(),
            cursor.tree() == self.tree(),
            cursor.nodes() == self.tree().path(self.leaf()),
            cursor.depth() == 0,
            cursor.replayed() == cursor.origin(),
    {
        let start = start_position();
        self.iter_from(&start)
    }

    /// Plays the line from `start` to its end and says what is wrong with it:
    /// the fault of its first move that cannot be played or shown, if there
    /// is one.
    pub fn check_from(&self, start: &shakmaty::Chess) -> (fault: Option<CorpusFault>)
        requires
            self.wf(),
        ensures
            fault == line_fault(*start, self.line()),
    {
        let mut cursor = self.iter_from(start);
        proof {
            assert(cursor.line().take(0) =~= Seq::<Seq<u8>>::empty());
        }
        loop
            invariant
                cursor.wf(),
                cursor.tree() == self.tree(),
                cursor.nodes() == self.tree().path(self.leaf()),
                cursor.origin() == *start,
                cursor.line() == self.line(),
                cursor.depth() <= cursor.nodes().len(),
                line_fault(*start, self.line().take(cursor.depth() as int)) is None,
            decreases cursor.nodes().len() - cursor.depth(),
        {
            let ghost before = cursor;
            let ghost line = self.line();
            let ghost d = cursor.depth() as int;
            proof {
                before.lemma_replayed();
                if d < line.len() {
                    let upto = line.take(d + 1);
                    assert(upto.drop_last() =~= line.take(d));
                    assert(upto.last() == line[d]);
                } else {
                    assert(line.take(d) =~= line);
                }
            }
            match cursor.next() {
                Ok(None) => {
                    return None;
                },
                Ok(Some(ply)) => {
                    if ply.from().is_none() {
                        proof {
                            lemma_line_fault_stays(*start, line, d + 1);
                        }
                        return Some(CorpusFault::MoveWithoutOrigin);
                    }
                    proof {
                        cursor.lemma_replayed();
                    }
                },
                Err(fault) => {
                    proof {
                        lemma_line_fault_stays(*start, line, d + 1);
                    }
                    return Some(fault);
                },
            }
        }
    }
}

impl<'source> Variations<'source> {
    /// The tree whose lines these are.
    pub closed spec fn tree(&self) -> TreeView<Span<'source>> {
        self.tree@
    }

    /// The nodes at which the lines end, in order.
    pub closed spec fn nodes(&self) -> Seq<Node> {
        self.variations@
    }

    /// These are the complete lines of a sound tree of moves, in order.
    pub closed spec fn wf(&self) -> bool {
        &&& self.tree.wf()
        &&& self.variations@ == self.tree@.leaves()
        &&& self.variations@.len() > 0
        &&& forall|k: int|
            0 <= k < self.variations@.len() ==> self.tree@.contains(#[trigger] self.variations@[k])
    }

    /// One of the lines, picked at random, each as likely as any other.
    pub fn choose_random(&self, rng: &mut rand::rngs::ThreadRng) -> (line: Variation<'source>)
        requires
            self.wf(),
        ensures
            line.wf(),
            line.tree() == self.tree(),
            self.nodes().contains(line.leaf()),
    {
        let node = *pick(rng, &self.variations).unwrap();
        Variation::new(share(&self.tree), node)
    }

    /// The lines themselves, in order, each as the notations of its moves.
    pub open spec fn lines(&self) -> Seq<Seq<Seq<u8>>> {
        Seq::new(self.nodes().len(), |k: int| line_of(self.tree(), self.nodes()[k]))
    }

    /// Every line can be played from `start` to its end, and each of its
    /// moves starts from a square.
    pub open spec fn sound_from(&self, start: shakmaty::Chess) -> bool {
        first_fault(start, self.lines()) is None
    }

    /// Plays every line from `start` to its end and says what is wrong with
    /// the first that has a fault: the first of its moves that cannot be read
    /// in its position, or that starts from no square. `None` says that every
    /// line can be played and shown.
    pub fn check_from(&self, start: &shakmaty::Chess) -> (fault: Option<CorpusFault>)
        requires
            self.wf(),
        ensures
            fault == first_fault(*start, self.lines()),
            fault is None <==> self.sound_from(*start),
            fault is None <==> forall|k: int|
                0 <= k < self.nodes().len() ==> line_fault(
                    *start,
                    line_of(self.tree(), #[trigger] self.nodes()[k]),
                ) is None,
            fault is None ==> forall|k: int|
                0 <= k < self.nodes().len() ==> replay(
                    *start,
                    line_of(self.tree(), #[trigger] self.nodes()[k]),
                ) is Ok,
            fault is Some ==> exists|k: int|
                0 <= k < self.nodes().len() && line_fault(
                    *start,
                    line_of(self.tree(), #[trigger] self.nodes()[k]),
                ) == fault,
    {
        let ghost lines = self.lines();
        let mut k: usize = 0;
        proof {
            assert(lines.take(0) =~= Seq::<Seq<Seq<u8>>>::empty());
            lemma_first_fault(*start, lines);
            assert forall|j: int| 0 <= j < self.nodes().len() implies lines[j] == line_of(
                self.tree(),
                #[trigger] self.nodes()[j],
            ) by {}
            if first_fault(*start, lines) is None {
                assert forall|j: int| 0 <= j < self.nodes().len() implies replay(
                    *start,
                    line_of(self.tree(), #[trigger] self.nodes()[j]),
                ) is Ok by {
                    assert(line_fault(*start, lines[j]) is None);
                    crate::rules::lemma_sound_replays(*start, lines[j]);
                }
            } else {
                let at = choose|at: int|
                    0 <= at < lines.len() && line_fault(*start, #[trigger] lines[at])
                        == first_fault(*start, lines);
                assert(lines[at] == line_of(self.tree(), self.nodes()[at]));
            }
        }
        while k < self.variations.len()
            invariant
                self.wf(),
                lines == self.lines(),
                k <= self.variations@.len(),
                first_fault(*start, lines.take(k as int)) is None,
            decreases self.variations@.len() - k,
        {
            let line = Variation::new(share(&self.tree), self.variations[k]);
            proof {
                let upto = lines.take(k + 1);
                assert(upto.drop_last() =~= lines.take(k as int));
                assert(upto.last() == line.line());
            }
            match line.check_from(start) {
                Some(fault) => {
                    proof {
                        lemma_first_fault_stays(*start, lines, k + 1);
                    }
                    return Some(fault);
                },
                None => {},
            }
            k = k + 1;
        }
        proof {
            assert(lines.take(k as int) =~= lines);
        }
        None
    }

    /// The number of lines, which is never 0.
    #[inline]
    pub fn len(&self) -> (count: usize)
        requires
            self.wf(),
        ensures
            count == self.nodes().len(),
            count > 0,
    {
        self.variations.len()
    }

    /// The line of the given number, counted from 0.
    pub fn get(&self, index: usize) -> (line: Variation<'source>)
        requires
            self.wf(),
            index < self.nodes().len(),
        ensures
            line.wf(),
            line.tree() == self.tree(),
            line.leaf() == self.nodes()[index as int],
    {
        Variation::new(share(&self.tree), self.variations[index])
    }
}

/// A cursor on one line of the tree, with the position that the moves before
/// the cursor lead to.
pub struct VariationIterator<'source> {
    tree: Rc<MoveTree<'source>>,
    nodes: Vec<Node>,
    leaf: Node,
    index: usize,
    start: shakmaty::Chess,
    pos: shakmaty::Chess,
}

impl<'source> VariationIterator<'source> {
    /// The tree that the line belongs to.
    pub closed spec fn tree(&self) -> TreeView<Span<'source>> {
        self.tree@
    }

    /// The nodes of the line, from the first move to the last.
    pub closed spec fn nodes(&self) -> Seq<Node> {
        self.nodes@
    }

    /// The number of moves before the cursor.
    pub closed spec fn depth(&self) -> nat {
        self.index as nat
    }

    /// The position before the first move.
    pub closed spec fn origin(&self) -> shakmaty::Chess {
        self.start
    }

    /// The position at the cursor.
    pub closed spec fn replayed(&self) -> shakmaty::Chess {
        self.pos
    }

    /// The notations of the moves of the line.
    pub open spec fn line(&self) -> Seq<Seq<u8>> {
        spans_of(self.tree(), self.nodes())
    }

    /// The nodes among which the next move is one: the children of the node
    /// that the cursor has reached. At the end of the line there are none.
    pub open spec fn siblings(&self) -> Seq<Node> {
        if self.depth() < self.nodes().len() {
            self.tree().node(self.tree().node(self.nodes()[self.depth() as int]).parent->0).children
        } else {
            Seq::empty()
        }
    }

    /// The node at which the line ends: the last of its nodes, or the root if
    /// the line has no moves.
    pub open spec fn end(&self) -> Node {
        if self.nodes().len() > 0 {
            self.nodes().last()
        } else {
            self.tree().root
        }
    }

    /// The line is a complete line of the tree: it ends at a childless node.
    pub open spec fn complete(&self) -> bool {
        self.tree().contains(self.end()) && self.tree().is_leaf(self.end())
    }

    /// The next move of the line as read in the position at the cursor; none at
    /// the end of the line.
    pub open spec fn ahead(&self) -> Result<Option<Ply>, CorpusFault> {
        if self.depth() >= self.nodes().len() {
            Ok(None)
        } else {
            match reading(self.replayed(), self.line()[self.depth() as int]) {
                Ok(m) => Ok(Some(move_details(m))),
                Err(fault) => Err(fault),
            }
        }
    }

    /// The move of the rules crate that the next notation of the line stands
    /// for in the position at the cursor, where it stands for one.
    pub open spec fn move_ahead(&self) -> shakmaty::Move {
        reading(self.replayed(), self.line()[self.depth() as int])->Ok_0
    }

    /// The moves that the tree knows from the position at the cursor, as read
    /// in that position.
    pub open spec fn all_ahead(&self) -> Result<Seq<Ply>, CorpusFault> {
        read_all(self.replayed(), spans_of(self.tree(), self.siblings()))
    }

    /// Both cursors stand at the same place of the same line of the same tree,
    /// with the same positions.
    pub open spec fn same_as(&self, other: VariationIterator<'source>) -> bool {
        &&& self.tree() == other.tree()
        &&& self.nodes() == other.nodes()
        &&& self.depth() == other.depth()
        &&& self.origin() == other.origin()
        &&& self.replayed() == other.replayed()
    }

    /// This cursor is `before` moved on by one move, which is `m`.
    pub open spec fn stepped_from(
        &self,
        before: VariationIterator<'source>,
        m: shakmaty::Move,
    ) -> bool {
        &&& self.tree() == before.tree()
        &&& self.nodes() == before.nodes()
        &&& self.origin() == before.origin()
        &&& self.depth() == before.depth() + 1
        &&& self.replayed() == position_after(before.replayed(), m)
    }

    /// This cursor is `before` after the move `candidate` was taken in free
    /// exploration: turned onto the line of the `k`th of the moves `plies`
    /// known at the position of `before`, the first that equals `candidate`,
    /// and moved on by that move.
    pub open spec fn explored_from(
        &self,
        before: VariationIterator<'source>,
        plies: Seq<Ply>,
        candidate: Ply,
        k: int,
    ) -> bool {
        &&& 0 <= k < plies.len()
        &&& k < before.siblings().len()
        &&& plies[k] == candidate
        &&& forall|j: int| 0 <= j < k ==> plies[j] != candidate
        &&& self.tree() == before.tree()
        &&& self.origin() == before.origin()
        &&& self.nodes() == before.tree().path(before.tree().first_leaf(before.siblings()[k]))
        &&& self.nodes().len() > before.depth()
        &&& self.nodes()[before.depth() as int] == before.siblings()[k]
        &&& self.depth() == before.depth() + 1
        &&& self.replayed() == position_after(
            before.replayed(),
            reading(before.replayed(), spans_of(before.tree(), before.siblings())[k])->Ok_0,
        )
    }

    /// The cursor lies on a line of a sound tree, and its position is the one
    /// that the moves before it lead to from the first position.
    pub closed spec fn wf(&self) -> bool {
        &&& self.tree.wf()
        &&& self.tree@.contains(self.leaf)
        &&& self.nodes@ == self.tree@.path(self.leaf)
        &&& self.index <= self.nodes@.len()
        &&& replay(self.start, self.line().take(self.index as int)) == Ok::<
            shakmaty::Chess,
            CorpusFault,
        >(self.pos)
    }

    /// The position at the cursor.
    pub fn position(&self) -> (pos: &shakmaty::Chess)
        ensures
            *pos == self.replayed(),
    {
        &self.pos
    }

    /// The position before the first move.
    pub fn start(&self) -> (pos: &shakmaty::Chess)
        ensures
            *pos == self.origin(),
    {
        &self.start
    }

    /// The notation of the move that a node of the tree holds.
    fn span_of_node(&self, node: Node) -> (span: Span<'source>)
        requires
            self.wf(),
            self.tree().contains(node),
            node != self.tree().root,
        ensures
            span@ == self.tree().node(node).value->0@,
    {
        proof {
            assert(self.tree@.nodes[node.index as int].value is Some);
        }
        node.value(&self.tree.tree).unwrap()
    }

    /// Plays the next move of the line and returns it; at the end of the line
    /// there is none and nothing changes. A move that cannot be read in the
    /// position at the cursor is a fault of the line, and nothing changes.
    pub fn next(&mut self) -> (played: Result<Option<Ply>, CorpusFault>)
        requires
            old(self).wf(),
        ensures
            final(self).wf(),
            final(self).tree() == old(self).tree(),
            final(self).nodes() == old(self).nodes(),
            final(self).origin() == old(self).origin(),
            played == old(self).ahead(),
            played matches Ok(Some(ply)) ==> ply.in_range(),
            (played is Err || played == Ok::<Option<Ply>, CorpusFault>(None))
                ==> final(self).same_as(*old(self)),
            old(self).depth() >= old(self).nodes().len() ==> {
                &&& played matches Ok(None)
                &&& final(self).depth() == old(self).depth()
                &&& final(self).replayed() == old(self).replayed()
            },
            old(self).depth() < old(self).nodes().len() ==> match reading(
                old(self).replayed(),
                old(self).line()[old(self).depth() as int],
            ) {
                Ok(m) => {
                    &&& played matches Ok(Some(ply))
                    &&& ply == move_details(m)
                    &&& final(self).stepped_from(*old(self), m)
                },
                Err(fault) => {
                    &&& played matches Err(found)
                    &&& found == fault
                    &&& final(self).depth() == old(self).depth()
                    &&& final(self).replayed() == old(self).replayed()
                },
            },
    {
        if self.index >= self.nodes.len() {
            return Ok(None);
        }
        let node = self.nodes[self.index];
        proof {
            self.tree@.lemma_path(self.leaf);
        }
        let span = self.span_of_node(node);
        let m = match read_move(&self.pos, span.bytes) {
            Ok(m) => m,
            Err(fault) => {
                return Err(fault);
            },
        };
        let ghost before = self.pos;
        let ghost line = self.line();
        play_unchecked(&mut self.pos, &m);
        self.index = self.index + 1;
        proof {
            let done = line.take(self.index as int);
            assert(done.drop_last() =~= line.take(self.index - 1));
            assert(done.last() == line[self.index - 1]);
        }
        Ok(Some(describe(&m)))
    }

    /// The next move of the line, which is not played; at the end of the line
    /// there is none.
    pub fn peek(&self) -> (ahead: Result<Option<Ply>, CorpusFault>)
        requires
            self.wf(),
        ensures
            ahead == self.ahead(),
            ahead matches Ok(Some(ply)) ==> ply.in_range(),
    {
        if self.index >= self.nodes.len() {
            return Ok(None);
        }
        let node = self.nodes[self.index];
        proof {
            self.tree@.lemma_path(self.leaf);
        }
        let span = self.span_of_node(node);
        match read_move(&self.pos, span.bytes) {
            Ok(m) => Ok(Some(describe(&m))),
            Err(fault) => Err(fault),
        }
    }

    /// The moves that the tree knows from the position at the cursor: that of
    /// this line and those of all lines that part from it here, oldest
    /// first. At the end of the line there are none.
    pub fn peek_all(&self) -> (ahead: Result<Vec<Ply>, CorpusFault>)
        requires
            self.wf(),
        ensures
            match self.all_ahead() {
                Ok(plies) => ahead matches Ok(found) && found@ == plies,
                Err(fault) => ahead matches Err(found) && found == fault,
            },
            ahead matches Ok(found) ==> forall|k: int|
                0 <= k < found@.len() ==> (#[trigger] found@[k]).in_range(),
    {
        let mut plies: Vec<Ply> = Vec::new();
        if self.index >= self.nodes.len() {
            return Ok(plies);
        }
        let node = self.nodes[self.index];
        proof {
            self.tree@.lemma_path(self.leaf);
            assert(self.tree@.contains(self.nodes@[self.index as int]));
            assert(self.tree@.wf_node(node.index as int));
        }
        let parent = node.try_get_parent(&self.tree.tree).unwrap();
        let siblings = parent.get_children(&self.tree.tree);
        let ghost texts = spans_of(self.tree(), self.siblings());
        let mut k: usize = 0;
        proof {
            assert(texts.take(0) =~= Seq::<Seq<u8>>::empty());
            assert(self.tree@.wf_node(parent.index as int));
        }
        while k < siblings.len()
            invariant
                self.wf(),
                self.tree@.contains(parent),
                self.tree@.wf_node(parent.index as int),
                siblings@ == self.tree@.node(parent).children,
                siblings@ == self.siblings(),
                texts == spans_of(self.tree(), self.siblings()),
                k <= siblings@.len(),
                read_all(self.pos, texts.take(k as int)) == Ok::<Seq<Ply>, CorpusFault>(plies@),
                forall|j: int| 0 <= j < plies@.len() ==> (#[trigger] plies@[j]).in_range(),
            decreases siblings@.len() - k,
        {
            let sibling = siblings[k];
            proof {
                assert(self.tree@.contains(siblings@[k as int]));
                assert(self.tree@.wf_node(self.tree@.root.index as int));
            }
            let span = self.span_of_node(sibling);
            proof {
                let upto = texts.take(k + 1);
                assert(upto.drop_last() =~= texts.take(k as int));
                assert(upto.last() == texts[k as int]);
            }
            match read_move(&self.pos, span.bytes) {
                Ok(m) => {
                    plies.push(describe(&m));
                },
                Err(fault) => {
                    proof {
                        lemma_fault_stays(self.pos, texts, k + 1);
                    }
                    return Err(fault);
                },
            }
            k = k + 1;
        }
        proof {
            assert(texts.take(k as int) =~= texts);
        }
        Ok(plies)
    }

    /// This cursor is `before` turned onto the line of the `k`th of the moves
    /// `plies` known at its position, the first of them that equals
    /// `candidate`: its line is the way to the first leaf below the node that
    /// holds that move, which is where the line goes on.
    pub open spec fn turned_from(
        &self,
        before: VariationIterator<'source>,
        plies: Seq<Ply>,
        candidate: Ply,
        k: int,
    ) -> bool {
        &&& 0 <= k < plies.len()
        &&& k < before.siblings().len()
        &&& plies[k] == candidate
        &&& forall|j: int| 0 <= j < k ==> plies[j] != candidate
        &&& self.nodes() == before.tree().path(before.tree().first_leaf(before.siblings()[k]))
        &&& self.nodes().len() > before.depth()
        &&& self.nodes()[before.depth() as int] == before.siblings()[k]
    }

    /// What `try_switch` makes of the cursor `before` and answers. A fault
    /// among the moves known at the position is answered as it is, and the
    /// line stays. Else the answer says whether `candidate` is one of those
    /// moves: if it is, this cursor is `before` turned onto the line of the
    /// first of them that equals it, and if not, the line stays.
    pub open spec fn switched_from(
        &self,
        before: VariationIterator<'source>,
        candidate: Ply,
        switched: Result<bool, CorpusFault>,
    ) -> bool {
        match before.all_ahead() {
            Err(fault) => {
                &&& switched matches Err(found)
                &&& found == fault
                &&& self.nodes() == before.nodes()
            },
            Ok(plies) => {
                &&& switched matches Ok(done)
                &&& done == plies.contains(candidate)
                &&& !done ==> self.nodes() == before.nodes()
                &&& done ==> exists|k: int| #[trigger] self.turned_from(before, plies, candidate, k)
            },
        }
    }

    /// Lets the line go on with `sibling`, a sibling of its next node, and from
    /// it down to its first leaf.
    fn turn_to(&mut self, sibling: Node)
        requires
            old(self).wf(),
            old(self).depth() < old(self).nodes().len(),
            old(self).tree().contains(sibling),
            old(self).tree().node(sibling).parent == old(self).tree().node(
                old(self).nodes()[old(self).depth() as int],
            ).parent,
        ensures
            final(self).wf(),
            final(self).tree() == old(self).tree(),
            final(self).origin() == old(self).origin(),
            final(self).depth() == old(self).depth(),
            final(self).replayed() == old(self).replayed(),
            final(self).nodes() == old(self).tree().path(old(self).tree().first_leaf(sibling)),
            final(self).nodes().len() > old(self).depth(),
            final(self).nodes()[old(self).depth() as int] == sibling,
            final(self).line().take(old(self).depth() as int) == old(self).line().take(
                old(self).depth() as int,
            ),
            final(self).siblings() == old(self).siblings(),
    {
        let ghost tree = self.tree@;
        let ghost old_nodes = self.nodes@;
        let ghost old_line = self.line();
        let ghost d = self.index as int;
        let leaf = sibling.find_first_leaf(&self.tree.tree);
        let nodes = self.tree.resolve_nodes(leaf);
        proof {
            tree.lemma_turn(self.leaf, d, sibling);
            assert(spans_of(tree, nodes@).take(d) =~= old_line.take(d)) by {
                assert forall|j: int| 0 <= j < d implies spans_of(tree, nodes@)[j]
                    == old_line[j] by {
                    assert(nodes@[j] == nodes@.take(d)[j]);
                    assert(old_nodes[j] == old_nodes.take(d)[j]);
                }
            }
        }
        self.nodes = nodes;
        self.leaf = leaf;
    }

    /// Turns the cursor onto another line of the tree, if `candidate` is one of
    /// the moves that the tree knows from the position at the cursor: the
    /// line then goes on with the first node that holds such a move, and from
    /// it down to its first leaf. The cursor does not advance and the
    /// position stays. Where no move fits, nothing changes.
    pub fn try_switch(&mut self, candidate: &Ply) -> (switched: Result<bool, CorpusFault>)
        requires
            old(self).wf(),
        ensures
            final(self).wf(),
            final(self).tree() == old(self).tree(),
            final(self).origin() == old(self).origin(),
            final(self).depth() == old(self).depth(),
            final(self).replayed() == old(self).replayed(),
            final(self).line().take(old(self).depth() as int) == old(self).line().take(
                old(self).depth() as int,
            ),
            final(self).switched_from(*old(self), *candidate, switched),
            final(self).siblings() == old(self).siblings(),
    {
        let plies = match self.peek_all() {
            Ok(plies) => plies,
            Err(fault) => {
                return Err(fault);
            },
        };
        if self.index >= self.nodes.len() {
            proof {
                assert(plies@ =~= Seq::<Ply>::empty());
            }
            return Ok(false);
        }
        let node = self.nodes[self.index];
        proof {
            self.tree@.lemma_path(self.leaf);
            assert(self.tree@.contains(self.nodes@[self.index as int]));
            assert(self.tree@.wf_node(node.index as int));
            lemma_read_all_len(self.pos, spans_of(self.tree(), self.siblings()));
        }
        let parent = node.try_get_parent(&self.tree.tree).unwrap();
        let mut k: usize = 0;
        while k < plies.len()
            invariant
                self.wf(),
                *self == *old(self),
                self.index < self.nodes@.len(),
                node == self.nodes@[self.index as int],
                self.tree@.node(node).parent == Some(parent),
                self.tree@.contains(parent),
                plies@.len() == self.siblings().len(),
                self.siblings() == self.tree@.node(parent).children,
                read_all(self.replayed(), spans_of(self.tree(), self.siblings())) == Ok::<
                    Seq<Ply>,
                    CorpusFault,
                >(plies@),
                k <= plies@.len(),
                forall|j: int| 0 <= j < k ==> plies@[j] != *candidate,
            decreases plies@.len() - k,
        {
            if plies[k] == *candidate {
                let sibling = parent.get_children(&self.tree.tree)[k];
                proof {
                    assert(self.tree@.wf_node(parent.index as int));
                    assert(self.tree@.contains(self.tree@.node(parent).children[k as int]));
                }
                let ghost before = *self;
                self.turn_to(sibling);
                proof {
                    assert(plies@[k as int] == *candidate);
                    assert(plies@.contains(*candidate));
                    assert(sibling == before.siblings()[k as int]);
                    assert(before == *old(self));
                    assert(old(self).all_ahead() == Ok::<Seq<Ply>, CorpusFault>(plies@));
                    let known = old(self).all_ahead()->Ok_0;
                    assert(known == plies@);
                    assert(self.turned_from(*old(self), known, *candidate, k as int));
                    assert(known.contains(*candidate));
                    assert(self.switched_from(*old(self), *candidate, Ok(true)));
                }
                return Ok(true);
            }
            k = k + 1;
        }
        proof {
            assert(!plies@.contains(*candidate));
            assert(self.line().take(self.index as int) =~= old(self).line().take(
                self.index as int,
            ));
        }
        Ok(false)
    }

    /// Moves the cursor to the start of the line and sets up the first
    /// position again.
    pub fn reset(&mut self)
        requires
            old(self).wf(),
        ensures
            final(self).wf(),
            final(self).tree() == old(self).tree(),
            final(self).nodes() == old(self).nodes(),
            final(self).origin() == old(self).origin(),
            final(self).depth() == 0,
            final(self).replayed() == final(self).origin(),
    {
        self.index = 0;
        self.pos = copy_position(&self.start);
        proof {
            assert(self.line().take(0) =~= Seq::<Seq<u8>>::empty());
        }
    }
}

/// Where all texts stand for moves, there is one move for each text.
pub proof fn lemma_read_all_len(pos: shakmaty::Chess, texts: Seq<Seq<u8>>)
    ensures
        read_all(pos, texts) matches Ok(plies) ==> plies.len() == texts.len(),
    decreases texts.len(),
{
    if texts.len() > 0 {
        lemma_read_all_len(pos, texts.drop_last());
    }
}

/// Where every text stands for a move, all of them together do.
pub proof fn lemma_read_all_ok(pos: shakmaty::Chess, texts: Seq<Seq<u8>>)
    requires
        forall|k: int| 0 <= k < texts.len() ==> reading(pos, #[trigger] texts[k]) is Ok,
    ensures
        read_all(pos, texts) is Ok,
    decreases texts.len(),
{
    if texts.len() > 0 {
        let before = texts.drop_last();
        assert forall|k: int| 0 <= k < before.len() implies reading(pos, #[trigger] before[k])
            is Ok by {
            assert(before[k] == texts[k]);
        }
        lemma_read_all_ok(pos, before);
        assert(texts.last() == texts[texts.len() - 1]);
    }
}

/// Where all texts stand for moves, each move is what its text stands for.
pub proof fn lemma_read_all_index(pos: shakmaty::Chess, texts: Seq<Seq<u8>>, k: int)
    requires
        read_all(pos, texts) is Ok,
        0 <= k < texts.len(),
    ensures
        reading(pos, texts[k]) is Ok,
        read_all(pos, texts)->Ok_0.len() == texts.len(),
        read_all(pos, texts)->Ok_0[k] == move_details(reading(pos, texts[k])->Ok_0),
    decreases texts.len(),
{
    lemma_read_all_len(pos, texts);
    lemma_read_all_len(pos, texts.drop_last());
    if k < texts.len() - 1 {
        lemma_read_all_index(pos, texts.drop_last(), k);
    }
}

/// Once a text stands for no move, the texts up to it and beyond have the
/// same fault.
pub proof fn lemma_fault_stays(pos: shakmaty::Chess, texts: Seq<Seq<u8>>, k: int)
    requires
        0 <= k <= texts.len(),
        read_all(pos, texts.take(k)) is Err,
    ensures
        read_all(pos, texts) == read_all(pos, texts.take(k)),
    decreases texts.len() - k,
{
    if k == texts.len() {
        assert(texts.take(k) =~= texts);
    } else {
        let upto = texts.take(k + 1);
        assert(upto.drop_last() =~= texts.take(k));
        lemma_fault_stays(pos, texts, k + 1);
    }
}

/// Reading a well-formed line into a tree of moves leaves a tree of moves
/// that holds all that the tree held, with the node that the line reaches in
/// it; it reads as far as the check of the line does, and makes at most one
/// node for every byte that it reads.
pub proof fn lemma_read_line<'source>(
    tree: TreeView<Span<'source>>,
    main: Node,
    pending: bool,
    rest: Seq<u8>,
)
    requires
        sound_moves(tree),
        tree.contains(main),
        check_line(tree.node(main).parent is Some, pending, rest).sound,
        tree.nodes.len() + rest.len() <= usize::MAX,
    ensures
        sound_moves(read_line(tree, main, pending, rest).tree),
        read_line(tree, main, pending, rest).tree.extends(tree),
        read_line(tree, main, pending, rest).tree.contains(
            read_line(tree, main, pending, rest).main,
        ),
        read_line(tree, main, pending, rest).rest == check_line(
            tree.node(main).parent is Some,
            pending,
            rest,
        ).rest,
        read_line(tree, main, pending, rest).rest.len() <= rest.len(),
        read_line(tree, main, pending, rest).tree.nodes.len() + read_line(
            tree,
            main,
            pending,
            rest,
        ).rest.len() <= tree.nodes.len() + rest.len(),
    decreases rest.len(),
{
    let anchored = tree.node(main).parent is Some;
    lemma_extends_self(tree);
    lemma_run_end_bounds(rest, 0, Class::Space);
    assert(tree.wf_node(main.index as int));
    match first_token(rest) {
        None => {},
        Some(scanned) => {
            if 0 < scanned.end <= rest.len() {
                let next = rest.skip(scanned.end);
                match scanned.token {
                    Lexeme::EndVariation => {},
                    Lexeme::StartVariation => {
                        lemma_read_line(tree, main, true, next);
                    },
                    Lexeme::SanMove(text) => {
                        let span = span_of::<'source>(text);
                        if pending {
                            let forked = tree.fork_or_find(main, span);
                            assert(tree.with_parent_of(main) == tree);
                            if !tree.holds(main, span) {
                                let parent = tree.node(main).parent->0;
                                tree.lemma_branch_or_find(parent, span);
                            }
                            lemma_read_line(forked.0, forked.1, false, next);
                            let aside = read_line(forked.0, forked.1, false, next);
                            aside.tree.lemma_extends_trans(forked.0, tree);
                            assert(aside.tree.nodes[main.index as int].parent
                                == tree.nodes[main.index as int].parent);
                            lemma_read_line(aside.tree, main, false, aside.rest);
                            let read = read_line(aside.tree, main, false, aside.rest);
                            read.tree.lemma_extends_trans(aside.tree, tree);
                        } else {
                            let grown = tree.branch_or_find(main, span);
                            tree.lemma_branch_or_find(main, span);
                            lemma_read_line(grown.0, grown.1, false, next);
                            let read = read_line(grown.0, grown.1, false, next);
                            read.tree.lemma_extends_trans(grown.0, tree);
                        }
                    },
                    _ => {
                        lemma_read_line(tree, main, pending, next);
                    },
                }
            }
        },
    }
}

/// What was read into a tree once is found in it when it is read again:
/// reading a line into a tree that extends what the line left of another
/// tree changes nothing, and reaches the same node.
pub proof fn lemma_reread<'source>(
    tree: TreeView<Span<'source>>,
    main: Node,
    pending: bool,
    rest: Seq<u8>,
    later: TreeView<Span<'source>>,
)
    requires
        sound_moves(tree),
        tree.contains(main),
        check_line(tree.node(main).parent is Some, pending, rest).sound,
        tree.nodes.len() + rest.len() <= usize::MAX,
        sound_moves(later),
        later.extends(read_line(tree, main, pending, rest).tree),
    ensures
        read_line(later, main, pending, rest) == (Reading {
            tree: later,
            main: read_line(tree, main, pending, rest).main,
            rest: read_line(tree, main, pending, rest).rest,
        }),
    decreases rest.len(),
{
    lemma_read_line(tree, main, pending, rest);
    lemma_run_end_bounds(rest, 0, Class::Space);
    assert(tree.wf_node(main.index as int));
    let whole = read_line(tree, main, pending, rest);
    later.lemma_extends_trans(whole.tree, tree);
    assert(later.nodes[main.index as int].parent == tree.nodes[main.index as int].parent);
    assert(later.nodes[main.index as int].value == tree.nodes[main.index as int].value);
    match first_token(rest) {
        None => {},
        Some(scanned) => {
            if 0 < scanned.end <= rest.len() {
                let next = rest.skip(scanned.end);
                match scanned.token {
                    Lexeme::EndVariation => {},
                    Lexeme::StartVariation => {
                        lemma_reread(tree, main, true, next, later);
                    },
                    Lexeme::SanMove(text) => {
                        let span = span_of::<'source>(text);
                        if pending {
                            let forked = tree.fork_or_find(main, span);
                            assert(tree.with_parent_of(main) == tree);
                            assert(later.with_parent_of(main) == later);
                            if !tree.holds(main, span) {
                                let parent = tree.node(main).parent->0;
                                tree.lemma_branch_or_find(parent, span);
                            }
                            lemma_read_line(forked.0, forked.1, false, next);
                            let aside = read_line(forked.0, forked.1, false, next);
                            aside.tree.lemma_extends_trans(forked.0, tree);
                            assert(aside.tree.nodes[main.index as int].parent
                                == tree.nodes[main.index as int].parent);
                            lemma_read_line(aside.tree, main, false, aside.rest);
                            let read = read_line(aside.tree, main, false, aside.rest);
                            assert(whole == read);
                            later.lemma_extends_trans(read.tree, aside.tree);
                            later.lemma_extends_trans(aside.tree, forked.0);
                            if !tree.holds(main, span) {
                                let parent = tree.node(main).parent->0;
                                tree.lemma_found_again(parent, span, later);
                            }
                            assert(later.fork_or_find(main, span) == (later, forked.1));
                            lemma_reread(forked.0, forked.1, false, next, later);
                            lemma_reread(aside.tree, main, false, aside.rest, later);
                        } else {
                            let grown = tree.branch_or_find(main, span);
                            tree.lemma_branch_or_find(main, span);
                            lemma_read_line(grown.0, grown.1, false, next);
                            let read = read_line(grown.0, grown.1, false, next);
                            assert(whole == read);
                            later.lemma_extends_trans(read.tree, grown.0);
                            tree.lemma_found_again(main, span, later);
                            lemma_reread(grown.0, grown.1, false, next, later);
                        }
                    },
                    _ => {
                        lemma_reread(tree, main, pending, next, later);
                    },
                }
            }
        },
    }
}

/// Adding a text a second time changes nothing: every move of it is found
/// where the first reading put it, and no node is made.
pub proof fn lemma_add_twice<'source>(tree: TreeView<Span<'source>>, text: Seq<u8>)
    requires
        sound_moves(tree),
        well_formed(text),
        tree.nodes.len() + text.len() <= usize::MAX,
    ensures
        read_line(
            read_line(tree, tree.root, false, text).tree,
            tree.root,
            false,
            text,
        ).tree == read_line(tree, tree.root, false, text).tree,
        read_line(tree, tree.root, false, text).tree.root == tree.root,
{
    assert(tree.wf_node(tree.root.index as int));
    lemma_read_line(tree, tree.root, false, text);
    let once = read_line(tree, tree.root, false, text).tree;
    lemma_extends_self(once);
    lemma_reread(tree, tree.root, false, text, once);
}

/// No byte of the text is `(`: the text has no asides.
pub open spec fn no_asides(text: Seq<u8>) -> bool {
    forall|i: int| 0 <= i < text.len() ==> #[trigger] text[i] != '(' as u8
}

/// A text without asides, read from the first leaf of a tree on, leaves the
/// node that its line reaches as the first leaf of the tree: its line is the
/// first that the tree lists.
pub proof fn lemma_first_line<'source>(tree: TreeView<Span<'source>>, main: Node, text: Seq<u8>)
    requires
        sound_moves(tree),
        tree.contains(main),
        tree.is_leaf(main),
        tree.first_leaf(tree.root) == main,
        no_asides(text),
        tree.nodes.len() + text.len() <= usize::MAX,
    ensures
        sound_moves(read_line(tree, main, false, text).tree),
        read_line(tree, main, false, text).tree.contains(read_line(tree, main, false, text).main),
        read_line(tree, main, false, text).tree.is_leaf(read_line(tree, main, false, text).main),
        read_line(tree, main, false, text).tree.leaves().len() > 0,
        read_line(tree, main, false, text).tree.leaves()[0] == read_line(
            tree,
            main,
            false,
            text,
        ).main,
    decreases text.len(),
{
    tree.lemma_first_of_leaves(tree.root);
    match first_token(text) {
        None => {},
        Some(scanned) => {
            if 0 < scanned.end <= text.len() {
                let next = text.skip(scanned.end);
                assert forall|i: int| 0 <= i < next.len() implies #[trigger] next[i] != '('
                    as u8 by {
                    assert(next[i] == text[i + scanned.end]);
                }
                match scanned.token {
                    Lexeme::EndVariation => {},
                    Lexeme::StartVariation => {
                        lemma_start_is_a_bracket(text);
                    },
                    Lexeme::SanMove(bytes) => {
                        let span = span_of::<'source>(bytes);
                        assert(tree.find_child(main, span) is None);
                        tree.lemma_branch_or_find(main, span);
                        tree.lemma_branch_first_leaf(tree.root, main, span);
                        let grown = tree.branch(main, span);
                        assert(grown.wf_node(tree.fresh().index as int));
                        lemma_first_line(grown, tree.fresh(), next);
                    },
                    _ => {
                        lemma_first_line(tree, main, next);
                    },
                }
            }
        },
    }
}

/// In a tree that holds one text without asides and nothing else, the first
/// line listed is the line of that text: the tree's first leaf is the node
/// that the text's line reaches, whose line `add_pgn` states to be the moves
/// of the text in order.
pub proof fn lemma_first_line_of_one_text<'source>(text: Seq<u8>)
    requires
        no_asides(text),
        text.len() < usize::MAX,
    ensures
        read_line(
            TreeView::<Span<'source>>::single(),
            TreeView::<Span<'source>>::single().root,
            false,
            text,
        ).tree.leaves()[0] == read_line(
            TreeView::<Span<'source>>::single(),
            TreeView::<Span<'source>>::single().root,
            false,
            text,
        ).main,
{
    let tree = TreeView::<Span<'source>>::single();
    assert(tree.wf_node(0));
    assert(tree.first_leaf(tree.root) == tree.root);
    lemma_first_line(tree, tree.root, text);
}

/// The line that ends at a node is the line that ends at its parent and the
/// node's own move.
pub proof fn lemma_line_step<'source>(tree: TreeView<Span<'source>>, n: Node)
    requires
        sound_moves(tree),
        tree.contains(n),
        n != tree.root,
    ensures
        tree.node(n).parent is Some,
        tree.contains(tree.node(n).parent->0),
        line_of(tree, n) == line_of(tree, tree.node(n).parent->0).push(tree.node(n).value->0@),
{
    assert(tree.wf_node(n.index as int));
    let p = tree.node(n).parent->0;
    tree.lemma_path(n);
    tree.lemma_path(p);
    assert(tree.path(n) == tree.path(p).push(n));
    assert(line_of(tree, n) =~= line_of(tree, p).push(tree.node(n).value->0@));
}

/// Shared openings are stored once: two nodes of a tree of moves never end
/// the same line.
pub proof fn lemma_lines_differ<'source>(tree: TreeView<Span<'source>>, a: Node, b: Node)
    requires
        sound_moves(tree),
        tree.contains(a),
        tree.contains(b),
        a != b,
    ensures
        line_of(tree, a) != line_of(tree, b),
    decreases tree.node(a).depth,
{
    tree.lemma_path(a);
    tree.lemma_path(b);
    assert(tree.wf_node(a.index as int));
    assert(tree.wf_node(b.index as int));
    assert(tree.wf_node(tree.root.index as int));
    if tree.node(a).depth != tree.node(b).depth {
        assert(line_of(tree, a).len() != line_of(tree, b).len());
    } else {
        assert(a != tree.root && b != tree.root);
        lemma_line_step(tree, a);
        lemma_line_step(tree, b);
        let pa = tree.node(a).parent->0;
        let pb = tree.node(b).parent->0;
        let la = line_of(tree, pa).push(tree.node(a).value->0@);
        let lb = line_of(tree, pb).push(tree.node(b).value->0@);
        if pa == pb {
            assert(tree.wf_node(pa.index as int));
            let kids = tree.node(pa).children;
            let i = choose|i: int| 0 <= i < kids.len() && kids[i] == a;
            let j = choose|j: int| 0 <= j < kids.len() && kids[j] == b;
            assert(tree.nodes[a.index as int].value is Some);
            assert(tree.nodes[b.index as int].value is Some);
            let listed = tree.nodes[pa.index as int].children;
            if i < j {
                assert(!tree.alike(listed[i], listed[j]));
            } else {
                assert(!tree.alike(listed[j], listed[i]));
            }
            assert(tree.node(a).value->0@ != tree.node(b).value->0@);
            assert(la.last() != lb.last());
        } else {
            lemma_lines_differ(tree, pa, pb);
            assert(la.drop_last() =~= line_of(tree, pa));
            assert(lb.drop_last() =~= line_of(tree, pb));
        }
    }
}

impl<'source> Variation<'source> {
    /// A line has as many moves as its last node lies deep in the tree.
    pub proof fn lemma_line_length(self)
        requires
            self.wf(),
        ensures
            self.line().len() == self.tree().node(self.leaf()).depth,
    {
        self.tree().lemma_path(self.leaf());
    }
}

impl<'source> Variations<'source> {
    /// There are as many lines as there are different complete lines in the
    /// tree: no two of them are the same sequence of moves, however many texts
    /// were added and however much they had in common.
    pub proof fn lemma_lines_differ(self, i: int, j: int)
        requires
            self.wf(),
            0 <= i < self.nodes().len(),
            0 <= j < self.nodes().len(),
            i != j,
        ensures
            self.nodes()[i] != self.nodes()[j],
            line_of(self.tree(), self.nodes()[i]) != line_of(self.tree(), self.nodes()[j]),
    {
        let tree = self.tree();
        tree.lemma_leaves_from_once(tree.root);
        tree.lemma_leaves_from(tree.root);
        lemma_lines_differ(tree, self.nodes()[i], self.nodes()[j]);
    }

    /// Where every line can be played from `start`, so can the line that ends
    /// at any childless node of the tree.
    pub proof fn lemma_sound_leaf(self, start: shakmaty::Chess, l: Node)
        requires
            self.wf(),
            self.sound_from(start),
            self.tree().contains(l),
            self.tree().is_leaf(l),
        ensures
            line_fault(start, line_of(self.tree(), l)) is None,
    {
        self.tree().lemma_leaves_complete(l);
        lemma_first_fault(start, self.lines());
        let k = choose|k: int| 0 <= k < self.nodes().len() && self.nodes()[k] == l;
        assert(self.lines()[k] == line_of(self.tree(), l));
    }

    /// Every line ends at a childless node of the tree, and every childless
    /// node ends one of the lines.
    pub proof fn lemma_lines_are_leaves(self)
        requires
            self.wf(),
        ensures
            self.nodes() == self.tree().leaves(),
            forall|k: int|
                0 <= k < self.nodes().len() ==> {
                    &&& self.tree().contains(#[trigger] self.nodes()[k])
                    &&& self.tree().is_leaf(self.nodes()[k])
                },
            forall|l: Node|
                self.tree().contains(l) && self.tree().is_leaf(l)
                    ==> #[trigger] self.nodes().contains(l),
    {
        self.tree().lemma_leaves_from(self.tree().root);
        let tree = self.tree();
        assert forall|l: Node| tree.contains(l) && tree.is_leaf(l) implies #[trigger]
            self.nodes().contains(l) by {
            self.tree().lemma_leaves_complete(l);
        }
    }
}

impl<'source> VariationIterator<'source> {
    /// The position at the cursor is the first position with the moves of
    /// the line before the cursor played in order, and the cursor lies
    /// within the line.
    pub proof fn lemma_replayed(self)
        requires
            self.wf(),
        ensures
            self.depth() <= self.nodes().len(),
            replay(self.origin(), self.line().take(self.depth() as int)) == Ok::<
                shakmaty::Chess,
                CorpusFault,
            >(self.replayed()),
    {
    }

    /// A cursor on the way to a childless node lies on a complete line.
    pub proof fn lemma_on_leaf(self, l: Node)
        requires
            self.wf(),
            self.nodes() == self.tree().path(l),
            self.tree().contains(l),
            self.tree().is_leaf(l),
        ensures
            self.complete(),
    {
        self.tree().lemma_path(l);
        assert(self.tree().wf_node(self.tree().root.index as int));
    }

    /// A complete line of a tree whose lines all can be played has no fault.
    pub proof fn lemma_sound_line(self, lines: Variations<'source>)
        requires
            self.wf(),
            lines.wf(),
            lines.tree() == self.tree(),
            lines.sound_from(self.origin()),
            self.complete(),
        ensures
            line_fault(self.origin(), self.line()) is None,
    {
        let tree = self.tree();
        tree.lemma_path(self.leaf);
        assert(tree.wf_node(tree.root.index as int));
        assert(self.end() == self.leaf);
        lines.lemma_sound_leaf(self.origin(), self.leaf);
    }

    /// On a line without a fault the next move can be read, and starts from a
    /// square.
    pub proof fn lemma_sound_ahead(self)
        requires
            self.wf(),
            line_fault(self.origin(), self.line()) is None,
        ensures
            self.ahead() is Ok,
            self.ahead() matches Ok(Some(ply)) ==> ply.origin() is Some,
    {
        if self.depth() < self.nodes().len() {
            lemma_sound_step(self.origin(), self.line(), self.depth() as int);
        }
    }

    /// In a tree whose lines all can be played, every move known at the
    /// cursor can be read, and starts from a square.
    pub proof fn lemma_sound_all_ahead(self, lines: Variations<'source>)
        requires
            self.wf(),
            lines.wf(),
            lines.tree() == self.tree(),
            lines.sound_from(self.origin()),
        ensures
            self.all_ahead() matches Ok(plies) && plies.len() == self.siblings().len() && forall|
                k: int,
            |
                0 <= k < plies.len() ==> (#[trigger] plies[k]).origin() is Some,
    {
        let tree = self.tree();
        let texts = spans_of(tree, self.siblings());
        let d = self.depth() as int;
        let pos = self.replayed();
        if d < self.nodes().len() {
            tree.lemma_path(self.leaf);
            let node = self.nodes()[d];
            assert(tree.contains(node));
            assert(tree.wf_node(node.index as int));
            let parent = tree.node(node).parent->0;
            assert(tree.wf_node(parent.index as int));
            assert forall|k: int| 0 <= k < texts.len() implies reading(pos, #[trigger] texts[k])
                matches Ok(m) && move_details(m).origin() is Some by {
                let sibling = self.siblings()[k];
                assert(tree.contains(tree.node(parent).children[k]));
                tree.lemma_turn(self.leaf, d, sibling);
                tree.lemma_first_leaf(sibling);
                let leaf = tree.first_leaf(sibling);
                lines.lemma_sound_leaf(self.origin(), leaf);
                let other = line_of(tree, leaf);
                lemma_sound_step(self.origin(), other, d);
                assert(other.take(d) =~= self.line().take(d)) by {
                    assert forall|j: int| 0 <= j < d implies other[j] == self.line()[j] by {
                        assert(tree.path(leaf)[j] == tree.path(leaf).take(d)[j]);
                        assert(self.nodes()[j] == self.nodes().take(d)[j]);
                    }
                }
                assert(other[d] == texts[k]);
            }
            lemma_read_all_ok(pos, texts);
            lemma_read_all_len(pos, texts);
            let plies = read_all(pos, texts)->Ok_0;
            assert forall|k: int| 0 <= k < plies.len() implies (#[trigger] plies[k]).origin()
                is Some by {
                assert(reading(pos, texts[k]) is Ok);
                lemma_read_all_index(pos, texts, k);
            }
        } else {
            assert(texts =~= Seq::<Seq<u8>>::empty());
        }
    }

    /// A cursor that was turned onto another line lies on a complete line.
    pub proof fn lemma_turned_complete(
        self,
        before: VariationIterator<'source>,
        plies: Seq<Ply>,
        candidate: Ply,
        k: int,
    )
        requires
            before.wf(),
            self.tree() == before.tree(),
            self.turned_from(before, plies, candidate, k) || self.explored_from(
                before,
                plies,
                candidate,
                k,
            ),
        ensures
            self.complete(),
    {
        let tree = before.tree();
        let d = before.depth() as int;
        tree.lemma_path(before.leaf);
        let node = before.nodes()[d];
        assert(tree.contains(node));
        assert(tree.wf_node(node.index as int));
        let parent = tree.node(node).parent->0;
        assert(tree.wf_node(parent.index as int));
        let sibling = before.siblings()[k];
        assert(tree.contains(tree.node(parent).children[k]));
        tree.lemma_first_leaf(sibling);
        let leaf = tree.first_leaf(sibling);
        tree.lemma_path(leaf);
        assert(tree.wf_node(tree.root.index as int));
        assert(tree.wf_node(sibling.index as int));
        tree.lemma_path(sibling);
    }

    /// After a move was taken in free exploration, the moves known at the
    /// cursor are those of the children of the node that held that move.
    pub proof fn lemma_explored_siblings(
        self,
        before: VariationIterator<'source>,
        plies: Seq<Ply>,
        candidate: Ply,
        k: int,
    )
        requires
            self.wf(),
            self.explored_from(before, plies, candidate, k),
            self.depth() < self.nodes().len(),
        ensures
            self.siblings() == self.tree().node(before.siblings()[k]).children,
    {
        self.lemma_siblings();
    }

    /// The moves known at the cursor are those of the children of the node
    /// that the line has reached: of the root before the first move, and of
    /// the node of the last move played after it.
    pub proof fn lemma_siblings(self)
        requires
            self.wf(),
            self.depth() < self.nodes().len(),
        ensures
            sound_moves(self.tree()),
            self.siblings() == self.tree().node(
                if self.depth() == 0 {
                    self.tree().root
                } else {
                    self.nodes()[self.depth() - 1]
                },
            ).children,
            self.siblings().contains(self.nodes()[self.depth() as int]),
    {
        let tree = self.tree();
        tree.lemma_path(self.leaf);
        let node = self.nodes()[self.depth() as int];
        assert(tree.contains(node));
        assert(tree.wf_node(node.index as int));
    }
}

} // verus!
