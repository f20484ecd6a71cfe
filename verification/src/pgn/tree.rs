//! A tree of optional values kept in an arena: every node is a slot of one
//! vector, addressed by a stable index, and knows its parent and its children
//! in the order in which they were added.

use vstd::prelude::*;
use vstd::std_specs::cmp::PartialEqSpec;

verus! {

/// Handle of a node: the index of its slot in the arena of the tree that made it.
#[derive(Clone, Copy, PartialEq, Eq, Structural, Debug)]
pub struct Node {
    pub index: usize,
}

struct Slot<T> {
    parent: Option<Node>,
    value: Option<T>,
    children: Vec<Node>,
}

/// What one node holds, as the contracts see it.
#[verifier::ext_equal]
pub struct NodeView<T> {
    pub parent: Option<Node>,
    pub value: Option<T>,
    pub children: Seq<Node>,
    /// Number of parent links between the node and the root.
    pub depth: nat,
}

/// The mathematical model of a tree: its nodes by index, and its root.
#[verifier::ext_equal]
pub struct TreeView<T> {
    pub nodes: Seq<NodeView<T>>,
    pub root: Node,
}

/// A tree of optional values. Its nodes are made by the tree and never
/// leave it; a node is named by its handle.
pub struct Tree<T> {
    slots: Vec<Slot<T>>,
    root: Node,
    depths: Ghost<Seq<nat>>,
}

impl<T> TreeView<T> {
    /// The tree of one parentless, valueless, childless node.
    pub open spec fn single() -> TreeView<T> {
        TreeView {
            nodes: seq![
                NodeView { parent: None, value: None, children: Seq::empty(), depth: 0 },
            ],
            root: Node { index: 0 },
        }
    }

    /// The handle names a node of this tree.
    pub open spec fn contains(self, n: Node) -> bool {
        n.index < self.nodes.len()
    }

    /// What the node of that handle holds.
    pub open spec fn node(self, n: Node) -> NodeView<T> {
        self.nodes[n.index as int]
    }

    /// The handle that the next node to be created will get.
    pub open spec fn fresh(self) -> Node {
        Node { index: self.nodes.len() as usize }
    }

    /// The node has no children.
    pub open spec fn is_leaf(self, n: Node) -> bool {
        self.node(n).children.len() == 0
    }

    /// Slot `i` agrees with its neighbours: its parent lists it, its children
    /// point back to it, and no child is listed twice.
    pub open spec fn wf_node(self, i: int) -> bool {
        let n = self.nodes[i];
        let me = Node { index: i as usize };
        &&& n.depth < self.nodes.len()
        &&& (i == self.root.index ==> n.parent is None && n.depth == 0)
        &&& (i != self.root.index ==> {
            &&& n.parent matches Some(p)
            &&& self.contains(p)
            &&& self.node(p).children.contains(me)
            &&& n.depth == self.node(p).depth + 1
        })
        &&& (forall|k: int|
            0 <= k < n.children.len() ==> {
                &&& self.contains(#[trigger] n.children[k])
                &&& self.node(n.children[k]).parent == Some(me)
            })
        &&& n.children.no_duplicates()
    }

    /// The tree is acyclic, has one root, and parent and child links agree.
    pub open spec fn wf(self) -> bool {
        &&& self.nodes.len() <= usize::MAX
        &&& self.contains(self.root)
        &&& forall|i: int| 0 <= i < self.nodes.len() ==> #[trigger] self.wf_node(i)
    }

    /// The tree with one more node: a new last child of `parent`, holding `value`.
    pub open spec fn branch(self, parent: Node, value: T) -> TreeView<T> {
        let p = self.node(parent);
        TreeView {
            nodes: self.nodes.update(
                parent.index as int,
                NodeView {
                    parent: p.parent,
                    value: p.value,
                    children: p.children.push(self.fresh()),
                    depth: p.depth,
                },
            ).push(
                NodeView {
                    parent: Some(parent),
                    value: Some(value),
                    children: Seq::empty(),
                    depth: p.depth + 1,
                },
            ),
            root: self.root,
        }
    }

    /// The tree with a new valueless root above the old one, whose only child
    /// is the old root.
    pub open spec fn reroot(self) -> TreeView<T> {
        let top = self.fresh();
        TreeView {
            nodes: Seq::new(
                self.nodes.len(),
                |i: int|
                    NodeView {
                        parent: if i == self.root.index {
                            Some(top)
                        } else {
                            self.nodes[i].parent
                        },
                        value: self.nodes[i].value,
                        children: self.nodes[i].children,
                        depth: self.nodes[i].depth + 1,
                    },
            ).push(
                NodeView { parent: None, value: None, children: seq![self.root], depth: 0 },
            ),
            root: top,
        }
    }

    /// The tree in which `n` is sure to have a parent: unchanged if it has one,
    /// with a new root above it otherwise.
    pub open spec fn with_parent_of(self, n: Node) -> TreeView<T> {
        if self.node(n).parent is Some {
            self
        } else {
            self.reroot()
        }
    }

    /// The parent that `n` has in `self.with_parent_of(n)`.
    pub open spec fn parent_or_fresh(self, n: Node) -> Node {
        match self.node(n).parent {
            Some(p) => p,
            None => self.fresh(),
        }
    }

    /// The childless node reached from `n` by taking the first child at every level.
    pub open spec fn first_leaf(self, n: Node) -> Node
        decreases self.nodes.len() - self.node(n).depth,
        when self.wf() && self.contains(n)
    {
        if self.node(n).children.len() == 0 {
            n
        } else {
            proof {
                let c = self.node(n).children[0];
                assert(self.wf_node(n.index as int));
                assert(self.contains(c));
                assert(self.wf_node(c.index as int));
            }
            self.first_leaf(self.node(n).children[0])
        }
    }

    /// The nodes on the way from the root to `n`: the root left out, `n` last.
    pub open spec fn path(self, n: Node) -> Seq<Node>
        decreases self.node(n).depth,
        when self.wf() && self.contains(n)
    {
        match self.node(n).parent {
            None => Seq::empty(),
            Some(p) => {
                proof {
                    assert(self.wf_node(n.index as int));
                }
                self.path(p).push(n)
            },
        }
    }

    /// The childless nodes at or below `n`, found depth first, the children of
    /// each node taken oldest first.
    pub open spec fn leaves_from(self, n: Node) -> Seq<Node>
        decreases self.nodes.len() - self.node(n).depth, self.node(n).children.len() + 1,
        when self.wf() && self.contains(n)
    {
        if self.node(n).children.len() == 0 {
            seq![n]
        } else {
            self.leaves_among(n, 0)
        }
    }

    /// The childless nodes at or below the children of `n` from the `k`th on.
    pub open spec fn leaves_among(self, n: Node, k: int) -> Seq<Node>
        decreases self.nodes.len() - self.node(n).depth, self.node(n).children.len() - k,
        when self.wf() && self.contains(n) && 0 <= k
    {
        if k >= self.node(n).children.len() {
            Seq::empty()
        } else {
            proof {
                let c = self.node(n).children[k];
                assert(self.wf_node(n.index as int));
                assert(self.contains(c));
                assert(self.wf_node(c.index as int));
            }
            self.leaves_from(self.node(n).children[k]) + self.leaves_among(n, k + 1)
        }
    }

    /// All childless nodes of the tree, in the order in which a depth-first
    /// walk from the root meets them.
    pub open spec fn leaves(self) -> Seq<Node> {
        self.leaves_from(self.root)
    }

    /// Every node but the root holds a value.
    pub open spec fn complete(self) -> bool {
        forall|i: int|
            0 <= i < self.nodes.len() && i != self.root.index ==> (#[trigger] self.nodes[i]).value
                is Some
    }

    /// The way to a node is as long as the node is deep, goes through nodes of
    /// the tree only, each the child of the one before it and the first a
    /// child of the root, and ends at the node.
    pub proof fn lemma_path(self, n: Node)
        requires
            self.wf(),
            self.contains(n),
        ensures
            self.path(n).len() == self.node(n).depth,
            n != self.root ==> self.path(n).len() > 0 && self.path(n).last() == n,
            forall|k: int|
                0 <= k < self.path(n).len() ==> {
                    &&& self.contains(#[trigger] self.path(n)[k])
                    &&& self.path(n)[k] != self.root
                    &&& self.node(self.path(n)[k]).depth == k + 1
                    &&& self.node(self.path(n)[k]).parent == Some(
                        if k == 0 {
                            self.root
                        } else {
                            self.path(n)[k - 1]
                        },
                    )
                },
        decreases self.node(n).depth,
    {
        assert(self.wf_node(n.index as int));
        assert(self.wf_node(self.root.index as int));
        match self.node(n).parent {
            None => {},
            Some(p) => {
                self.lemma_path(p);
                assert(self.wf_node(p.index as int));
                if p != self.root {
                    assert(self.path(p).last() == p);
                }
            },
        }
    }

    /// The way to a node on the way to `n` is the start of the way to `n`.
    pub proof fn lemma_path_prefix(self, n: Node, k: int)
        requires
            self.wf(),
            self.contains(n),
            0 <= k < self.path(n).len(),
        ensures
            self.contains(self.path(n)[k]),
            self.path(self.path(n)[k]) == self.path(n).take(k + 1),
        decreases self.node(n).depth,
    {
        self.lemma_path(n);
        assert(self.wf_node(n.index as int));
        match self.node(n).parent {
            None => {},
            Some(p) => {
                if k == self.path(n).len() - 1 {
                    assert(self.path(n).take(k + 1) =~= self.path(n));
                } else {
                    self.lemma_path_prefix(p, k);
                    assert(self.path(n).take(k + 1) =~= self.path(p).take(k + 1));
                }
            },
        }
    }

    /// The first leaf below a node is a childless node of the tree, and the
    /// way to it starts with the way to the node.
    pub proof fn lemma_first_leaf(self, n: Node)
        requires
            self.wf(),
            self.contains(n),
        ensures
            self.contains(self.first_leaf(n)),
            self.is_leaf(self.first_leaf(n)),
            self.path(n).is_prefix_of(self.path(self.first_leaf(n))),
        decreases self.nodes.len() - self.node(n).depth,
    {
        assert(self.wf_node(n.index as int));
        if self.node(n).children.len() == 0 {
            assert(self.path(n) =~= self.path(n).subrange(0, self.path(n).len() as int));
        } else {
            let c = self.node(n).children[0];
            assert(self.contains(c));
            assert(self.wf_node(c.index as int));
            self.lemma_first_leaf(c);
            let whole = self.path(self.first_leaf(c));
            assert(self.path(c) == self.path(n).push(c));
            assert(self.path(n) =~= whole.subrange(0, self.path(n).len() as int)) by {
                assert(self.path(c) =~= whole.subrange(0, self.path(c).len() as int));
            }
        }
    }

    /// Turning off a way at its `d`th node: the way to the first leaf below a
    /// sibling of that node is the same up to `d`, and has the sibling there.
    pub proof fn lemma_turn(self, end: Node, d: int, sibling: Node)
        requires
            self.wf(),
            self.contains(end),
            0 <= d < self.path(end).len(),
            self.contains(sibling),
            self.node(sibling).parent == self.node(self.path(end)[d]).parent,
        ensures
            self.path(self.first_leaf(sibling)).len() > d,
            self.path(self.first_leaf(sibling))[d] == sibling,
            self.path(self.first_leaf(sibling)).take(d) == self.path(end).take(d),
    {
        let node = self.path(end)[d];
        let turned = self.path(self.first_leaf(sibling));
        self.lemma_path(end);
        self.lemma_path_prefix(end, d);
        self.lemma_first_leaf(sibling);
        self.lemma_path(sibling);
        assert(self.wf_node(node.index as int));
        assert(self.wf_node(sibling.index as int));
        let parent = self.node(node).parent->0;
        assert(self.path(node) == self.path(parent).push(node));
        assert(self.path(sibling) == self.path(parent).push(sibling));
        assert(self.path(node) == self.path(end).take(d + 1));
        assert(self.path(parent) =~= self.path(end).take(d)) by {
            assert(self.path(parent) =~= self.path(node).drop_last());
        }
        assert(self.path(sibling) =~= turned.subrange(0, self.path(sibling).len() as int));
        assert(turned[d] == self.path(sibling)[d]);
        assert(turned.take(d) =~= self.path(end).take(d)) by {
            assert forall|j: int| 0 <= j < d implies turned[j] == self.path(end)[j] by {
                assert(turned[j] == self.path(sibling)[j]);
                assert(self.path(sibling)[j] == self.path(parent)[j]);
                assert(self.path(end).take(d)[j] == self.path(end)[j]);
            }
        }
    }

    /// There is a leaf at or below every node.
    pub proof fn lemma_leaves_nonempty(self, n: Node)
        requires
            self.wf(),
            self.contains(n),
        ensures
            self.leaves_from(n).len() > 0,
        decreases self.nodes.len() - self.node(n).depth,
    {
        assert(self.wf_node(n.index as int));
        if self.node(n).children.len() > 0 {
            let c = self.node(n).children[0];
            assert(self.contains(c));
            assert(self.wf_node(c.index as int));
            self.lemma_leaves_nonempty(c);
        }
    }

    /// Every node that `leaves_from` finds is a childless node of the tree.
    pub proof fn lemma_leaves_from(self, n: Node)
        requires
            self.wf(),
            self.contains(n),
        ensures
            forall|j: int|
                0 <= j < self.leaves_from(n).len() ==> {
                    &&& self.contains(#[trigger] self.leaves_from(n)[j])
                    &&& self.is_leaf(self.leaves_from(n)[j])
                },
        decreases self.nodes.len() - self.node(n).depth, self.node(n).children.len() + 1,
    {
        assert(self.wf_node(n.index as int));
        if self.node(n).children.len() > 0 {
            self.lemma_leaves_among(n, 0);
            assert(self.leaves_from(n) == self.leaves_among(n, 0));
        } else {
            assert(self.leaves_from(n) == seq![n]);
        }
    }

    /// Every node that `leaves_among` finds is a childless node of the tree.
    pub proof fn lemma_leaves_among(self, n: Node, k: int)
        requires
            self.wf(),
            self.contains(n),
            0 <= k,
        ensures
            forall|j: int|
                0 <= j < self.leaves_among(n, k).len() ==> {
                    &&& self.contains(#[trigger] self.leaves_among(n, k)[j])
                    &&& self.is_leaf(self.leaves_among(n, k)[j])
                },
        decreases self.nodes.len() - self.node(n).depth, self.node(n).children.len() - k,
    {
        assert(self.wf_node(n.index as int));
        if k < self.node(n).children.len() {
            let c = self.node(n).children[k];
            assert(self.contains(c));
            assert(self.wf_node(c.index as int));
            self.lemma_leaves_from(c);
            self.lemma_leaves_among(n, k + 1);
            let head = self.leaves_from(c);
            let tail = self.leaves_among(n, k + 1);
            assert(self.leaves_among(n, k) == head + tail);
            assert forall|j: int| 0 <= j < (head + tail).len() implies {
                &&& self.contains(#[trigger] (head + tail)[j])
                &&& self.is_leaf((head + tail)[j])
            } by {
                if j < head.len() {
                    assert((head + tail)[j] == head[j]);
                } else {
                    assert((head + tail)[j] == tail[j - head.len()]);
                }
            }
        } else {
            assert(self.leaves_among(n, k) == Seq::<Node>::empty());
        }
    }

    /// Node `l` is `n` or lies below it: the way to `l` goes through `n`.
    pub open spec fn below(self, n: Node, l: Node) -> bool {
        &&& self.contains(l)
        &&& (n == self.root || (self.node(n).depth <= self.path(l).len() && self.path(l)[self.node(
            n,
        ).depth - 1] == n))
    }

    /// What lies below a child of a node lies below the node.
    pub proof fn lemma_below_child(self, n: Node, i: int, l: Node)
        requires
            self.wf(),
            self.contains(n),
            0 <= i < self.node(n).children.len(),
            self.below(self.node(n).children[i], l),
        ensures
            self.below(n, l),
    {
        let c = self.node(n).children[i];
        assert(self.wf_node(n.index as int));
        assert(self.contains(c));
        assert(self.wf_node(c.index as int));
        self.lemma_path(l);
        if n != self.root {
            assert(c != self.root);
            let at = self.node(c).depth - 1;
            assert(self.path(l)[at] == c);
            assert(self.node(self.path(l)[at]).parent == Some(self.path(l)[at - 1]));
        }
    }

    /// Every leaf that `leaves_from` finds lies at or below the node it
    /// starts from.
    pub proof fn lemma_leaves_from_below(self, n: Node)
        requires
            self.wf(),
            self.contains(n),
        ensures
            forall|j: int|
                0 <= j < self.leaves_from(n).len() ==> self.below(
                    n,
                    #[trigger] self.leaves_from(n)[j],
                ),
        decreases self.nodes.len() - self.node(n).depth, self.node(n).children.len() + 1,
    {
        assert(self.wf_node(n.index as int));
        self.lemma_path(n);
        if self.node(n).children.len() > 0 {
            self.lemma_leaves_among_below(n, 0);
            assert(self.leaves_from(n) == self.leaves_among(n, 0));
            assert forall|j: int| 0 <= j < self.leaves_from(n).len() implies self.below(
                n,
                #[trigger] self.leaves_from(n)[j],
            ) by {
                let l = self.leaves_among(n, 0)[j];
                let i = choose|i: int|
                    0 <= i < self.node(n).children.len() && self.below(
                        #[trigger] self.node(n).children[i],
                        l,
                    );
                self.lemma_below_child(n, i, l);
            }
        } else {
            assert(self.leaves_from(n) == seq![n]);
        }
    }

    /// Every leaf that `leaves_among` finds lies at or below one of the
    /// children that it starts from.
    pub proof fn lemma_leaves_among_below(self, n: Node, k: int)
        requires
            self.wf(),
            self.contains(n),
            0 <= k,
        ensures
            forall|j: int|
                0 <= j < self.leaves_among(n, k).len() ==> exists|i: int|
                    k <= i < self.node(n).children.len() && self.below(
                        #[trigger] self.node(n).children[i],
                        #[trigger] self.leaves_among(n, k)[j],
                    ),
        decreases self.nodes.len() - self.node(n).depth, self.node(n).children.len() - k,
    {
        assert(self.wf_node(n.index as int));
        if k < self.node(n).children.len() {
            let c = self.node(n).children[k];
            assert(self.contains(c));
            assert(self.wf_node(c.index as int));
            self.lemma_leaves_from_below(c);
            self.lemma_leaves_among_below(n, k + 1);
            let head = self.leaves_from(c);
            let tail = self.leaves_among(n, k + 1);
            assert(self.leaves_among(n, k) == head + tail);
            assert forall|j: int| 0 <= j < (head + tail).len() implies exists|i: int|
                k <= i < self.node(n).children.len() && self.below(
                    #[trigger] self.node(n).children[i],
                    #[trigger] (head + tail)[j],
                ) by {
                if j < head.len() {
                    assert((head + tail)[j] == head[j]);
                    assert(self.below(self.node(n).children[k], head[j]));
                } else {
                    let l = tail[j - head.len()];
                    assert((head + tail)[j] == l);
                    let i = choose|i: int|
                        k + 1 <= i < self.node(n).children.len() && self.below(
                            #[trigger] self.node(n).children[i],
                            l,
                        );
                    assert(self.below(self.node(n).children[i], l));
                }
            }
        } else {
            assert(self.leaves_among(n, k) == Seq::<Node>::empty());
        }
    }

    /// Nothing lies below two children of one node.
    pub proof fn lemma_children_apart(self, n: Node, a: int, b: int, l: Node)
        requires
            self.wf(),
            self.contains(n),
            0 <= a < b < self.node(n).children.len(),
            self.below(self.node(n).children[a], l),
        ensures
            !self.below(self.node(n).children[b], l),
    {
        let first = self.node(n).children[a];
        let second = self.node(n).children[b];
        assert(self.wf_node(n.index as int));
        assert(self.contains(first));
        assert(self.contains(second));
        assert(self.wf_node(first.index as int));
        assert(self.wf_node(second.index as int));
        assert(first != second);
    }

    /// `leaves_from` finds no leaf twice.
    pub proof fn lemma_leaves_from_once(self, n: Node)
        requires
            self.wf(),
            self.contains(n),
        ensures
            self.leaves_from(n).no_duplicates(),
        decreases self.nodes.len() - self.node(n).depth, self.node(n).children.len() + 1,
    {
        assert(self.wf_node(n.index as int));
        if self.node(n).children.len() > 0 {
            self.lemma_leaves_among_once(n, 0);
            assert(self.leaves_from(n) == self.leaves_among(n, 0));
        } else {
            assert(self.leaves_from(n) == seq![n]);
        }
    }

    /// `leaves_among` finds no leaf twice.
    pub proof fn lemma_leaves_among_once(self, n: Node, k: int)
        requires
            self.wf(),
            self.contains(n),
            0 <= k,
        ensures
            self.leaves_among(n, k).no_duplicates(),
        decreases self.nodes.len() - self.node(n).depth, self.node(n).children.len() - k,
    {
        assert(self.wf_node(n.index as int));
        if k < self.node(n).children.len() {
            let c = self.node(n).children[k];
            assert(self.contains(c));
            assert(self.wf_node(c.index as int));
            self.lemma_leaves_from_once(c);
            self.lemma_leaves_among_once(n, k + 1);
            self.lemma_leaves_from_below(c);
            self.lemma_leaves_among_below(n, k + 1);
            let head = self.leaves_from(c);
            let tail = self.leaves_among(n, k + 1);
            assert(self.leaves_among(n, k) == head + tail);
            assert forall|x: int, y: int|
                0 <= x < (head + tail).len() && 0 <= y < (head + tail).len() && x != y implies (head
                + tail)[x] != (head + tail)[y] by {
                if x < head.len() && y < head.len() {
                    assert((head + tail)[x] == head[x] && (head + tail)[y] == head[y]);
                } else if x >= head.len() && y >= head.len() {
                    assert((head + tail)[x] == tail[x - head.len()]);
                    assert((head + tail)[y] == tail[y - head.len()]);
                } else {
                    let (inner, outer) = if x < head.len() {
                        (x, y)
                    } else {
                        (y, x)
                    };
                    let l = tail[outer - head.len()];
                    assert((head + tail)[inner] == head[inner]);
                    assert((head + tail)[outer] == l);
                    assert(self.below(c, head[inner]));
                    let i = choose|i: int|
                        k + 1 <= i < self.node(n).children.len() && self.below(
                            #[trigger] self.node(n).children[i],
                            l,
                        );
                    if head[inner] == l {
                        self.lemma_children_apart(n, k, i, l);
                    }
                }
            }
        } else {
            assert(self.leaves_among(n, k) == Seq::<Node>::empty());
        }
    }

    /// The first leaf that `leaves_from` finds is the first leaf below the
    /// node that it starts from.
    pub proof fn lemma_first_of_leaves(self, n: Node)
        requires
            self.wf(),
            self.contains(n),
        ensures
            self.leaves_from(n).len() > 0,
            self.leaves_from(n)[0] == self.first_leaf(n),
        decreases self.nodes.len() - self.node(n).depth,
    {
        assert(self.wf_node(n.index as int));
        if self.node(n).children.len() > 0 {
            let c = self.node(n).children[0];
            assert(self.contains(c));
            assert(self.wf_node(c.index as int));
            self.lemma_first_of_leaves(c);
            let head = self.leaves_from(c);
            let tail = self.leaves_among(n, 1);
            assert(self.leaves_among(n, 0) == head + tail);
            assert(self.leaves_from(n) == self.leaves_among(n, 0));
            assert((head + tail)[0] == head[0]);
        } else {
            assert(self.leaves_from(n) == seq![n]);
        }
    }

    /// A new child under the first leaf below a node is the first leaf below
    /// that node.
    pub proof fn lemma_branch_first_leaf(self, n: Node, leaf: Node, value: T)
        requires
            self.wf(),
            self.contains(n),
            self.contains(leaf),
            self.is_leaf(leaf),
            self.first_leaf(n) == leaf,
            self.nodes.len() < usize::MAX,
        ensures
            self.branch(leaf, value).first_leaf(n) == self.fresh(),
        decreases self.nodes.len() - self.node(n).depth,
    {
        let after = self.branch(leaf, value);
        let fresh = self.fresh();
        self.lemma_branch_wf(leaf, value);
        assert(self.wf_node(n.index as int));
        assert(after.wf_node(n.index as int));
        assert(after.wf_node(fresh.index as int));
        if n == leaf {
            assert(after.node(leaf).children =~= seq![fresh]);
            assert(after.node(fresh).children.len() == 0);
            assert(after.first_leaf(fresh) == fresh);
            assert(after.first_leaf(leaf) == after.first_leaf(after.node(leaf).children[0]));
        } else {
            // A node that is not `leaf` itself leads on to it through its
            // first child, which it keeps.
            let c = self.node(n).children[0];
            assert(self.contains(c));
            assert(self.wf_node(c.index as int));
            self.lemma_branch_first_leaf(c, leaf, value);
            assert(after.node(n).children[0] == c);
        }
    }

    /// What `leaves_from` finds below one of the children from the `k`th on,
    /// `leaves_among` finds too.
    pub proof fn lemma_leaves_among_has(self, n: Node, k: int, i: int, l: Node)
        requires
            self.wf(),
            self.contains(n),
            0 <= k <= i < self.node(n).children.len(),
            self.leaves_from(self.node(n).children[i]).contains(l),
        ensures
            self.leaves_among(n, k).contains(l),
        decreases i - k,
    {
        assert(self.wf_node(n.index as int));
        let head = self.leaves_from(self.node(n).children[k]);
        let tail = self.leaves_among(n, k + 1);
        assert(self.leaves_among(n, k) == head + tail);
        if k == i {
            let at = choose|at: int| 0 <= at < head.len() && head[at] == l;
            assert((head + tail)[at] == l);
        } else {
            self.lemma_leaves_among_has(n, k + 1, i, l);
            let at = choose|at: int| 0 <= at < tail.len() && tail[at] == l;
            assert((head + tail)[head.len() + at] == l);
        }
    }

    /// `leaves_from` finds every childless node at or below the node that it
    /// starts from.
    pub proof fn lemma_leaves_from_has(self, n: Node, l: Node)
        requires
            self.wf(),
            self.contains(n),
            self.below(n, l),
            self.is_leaf(l),
        ensures
            self.leaves_from(n).contains(l),
        decreases self.nodes.len() - self.node(n).depth,
    {
        assert(self.wf_node(n.index as int));
        assert(self.wf_node(l.index as int));
        assert(self.wf_node(self.root.index as int));
        self.lemma_path(l);
        self.lemma_path(n);
        if l == n {
            assert(self.leaves_from(n) == seq![n]);
            assert(seq![n][0] == l);
        } else {
            // The way to `l` goes on behind `n`, through one of its children.
            let d = self.node(n).depth as int;
            if n != self.root && self.path(l).len() == d {
                assert(self.path(l).last() == l);
            }
            let c = self.path(l)[d];
            assert(self.contains(c));
            assert(self.wf_node(c.index as int));
            assert(self.node(c).parent == Some(n));
            let kids = self.node(n).children;
            let i = choose|i: int| 0 <= i < kids.len() && kids[i] == c;
            assert(self.below(c, l));
            self.lemma_leaves_from_has(c, l);
            self.lemma_leaves_among_has(n, 0, i, l);
            assert(self.leaves_from(n) == self.leaves_among(n, 0));
        }
    }

    /// Every childless node of the tree is among its leaves.
    pub proof fn lemma_leaves_complete(self, l: Node)
        requires
            self.wf(),
            self.contains(l),
            self.is_leaf(l),
        ensures
            self.leaves().contains(l),
    {
        self.lemma_leaves_from_has(self.root, l);
    }

    /// `self` holds all of `old` as it was: the same root, every node of `old`
    /// with its parent, value and depth, and its children followed by new ones.
    pub open spec fn extends(self, old: TreeView<T>) -> bool {
        &&& self.root == old.root
        &&& old.nodes.len() <= self.nodes.len()
        &&& forall|i: int|
            0 <= i < old.nodes.len() ==> {
                &&& (#[trigger] self.nodes[i]).parent == old.nodes[i].parent
                &&& self.nodes[i].value == old.nodes[i].value
                &&& self.nodes[i].depth == old.nodes[i].depth
                &&& old.nodes[i].children.is_prefix_of(self.nodes[i].children)
            }
    }

    /// A tree that extends another extends all that the other extends.
    pub proof fn lemma_extends_trans(self, middle: TreeView<T>, old: TreeView<T>)
        requires
            self.extends(middle),
            middle.extends(old),
        ensures
            self.extends(old),
    {
        assert forall|i: int| 0 <= i < old.nodes.len() implies {
            &&& (#[trigger] self.nodes[i]).parent == old.nodes[i].parent
            &&& self.nodes[i].value == old.nodes[i].value
            &&& self.nodes[i].depth == old.nodes[i].depth
            &&& old.nodes[i].children.is_prefix_of(self.nodes[i].children)
        } by {
            let a = old.nodes[i].children;
            let b = middle.nodes[i].children;
            let c = self.nodes[i].children;
            assert(a.is_prefix_of(b));
            assert(b.is_prefix_of(c));
            assert(a =~= c.subrange(0, a.len() as int)) by {
                assert(a =~= b.subrange(0, a.len() as int));
                assert(b =~= c.subrange(0, b.len() as int));
            }
        }
    }

    /// Growing a tree moves no node: the way from the root to a node of the
    /// old tree is the same in the new one.
    pub proof fn lemma_extends_path(self, old: TreeView<T>, n: Node)
        requires
            self.wf(),
            old.wf(),
            self.extends(old),
            old.contains(n),
        ensures
            self.path(n) == old.path(n),
        decreases old.node(n).depth,
    {
        assert(old.wf_node(n.index as int));
        assert(self.nodes[n.index as int].parent == old.nodes[n.index as int].parent);
        match old.node(n).parent {
            None => {},
            Some(p) => {
                self.lemma_extends_path(old, p);
            },
        }
    }

    /// A new child leaves all that was there as it was.
    pub proof fn lemma_branch_extends(self, parent: Node, value: T)
        requires
            self.wf(),
            self.contains(parent),
        ensures
            self.branch(parent, value).extends(self),
    {
        let after = self.branch(parent, value);
        assert forall|i: int| 0 <= i < self.nodes.len() implies {
            &&& (#[trigger] after.nodes[i]).parent == self.nodes[i].parent
            &&& after.nodes[i].value == self.nodes[i].value
            &&& after.nodes[i].depth == self.nodes[i].depth
            &&& self.nodes[i].children.is_prefix_of(after.nodes[i].children)
        } by {
            let a = self.nodes[i].children;
            let b = after.nodes[i].children;
            assert(a =~= b.subrange(0, a.len() as int));
        }
    }

    /// A new child keeps the tree sound.
    pub proof fn lemma_branch_wf(self, parent: Node, value: T)
        requires
            self.wf(),
            self.contains(parent),
            self.nodes.len() < usize::MAX,
        ensures
            self.branch(parent, value).wf(),
    {
        let after = self.branch(parent, value);
        let fresh = self.fresh();
        assert(self.wf_node(parent.index as int));
        assert forall|i: int| 0 <= i < after.nodes.len() implies #[trigger] after.wf_node(i) by {
            if i < self.nodes.len() {
                assert(self.wf_node(i));
                let n = self.nodes[i];
                let m = after.nodes[i];
                if i != self.root.index {
                    let p = n.parent->0;
                    assert(self.wf_node(p.index as int));
                    assert(after.node(p).children.contains(Node { index: i as usize })) by {
                        let k = choose|k: int|
                            0 <= k < self.node(p).children.len() && self.node(p).children[k]
                                == Node { index: i as usize };
                        assert(after.node(p).children[k] == Node { index: i as usize });
                    }
                }
                assert forall|k: int| 0 <= k < m.children.len() implies {
                    &&& after.contains(#[trigger] m.children[k])
                    &&& after.node(m.children[k]).parent == Some(Node { index: i as usize })
                } by {
                    if k < n.children.len() {
                        assert(self.contains(n.children[k]));
                    }
                }
                if i == parent.index {
                    let kids = m.children;
                    assert forall|a: int, b: int|
                        0 <= a < kids.len() && 0 <= b < kids.len() && a != b implies kids[a]
                        != kids[b] by {
                        if a < n.children.len() {
                            assert(self.contains(n.children[a]));
                        }
                        if b < n.children.len() {
                            assert(self.contains(n.children[b]));
                        }
                    }
                }
            } else {
                assert(after.node(parent).children[self.node(parent).children.len() as int]
                    == fresh);
            }
        }
    }

    /// A new root above the old one keeps the tree sound.
    pub proof fn lemma_reroot_wf(self)
        requires
            self.wf(),
            self.nodes.len() < usize::MAX,
        ensures
            self.reroot().wf(),
    {
        let after = self.reroot();
        let top = self.fresh();
        assert(self.wf_node(self.root.index as int));
        assert forall|i: int| 0 <= i < after.nodes.len() implies #[trigger] after.wf_node(i) by {
            if i < self.nodes.len() {
                assert(self.wf_node(i));
                let n = self.nodes[i];
                let m = after.nodes[i];
                if i != self.root.index {
                    let p = n.parent->0;
                    assert(self.wf_node(p.index as int));
                } else {
                    assert(after.node(top).children[0] == self.root);
                }
                assert forall|k: int| 0 <= k < m.children.len() implies {
                    &&& after.contains(#[trigger] m.children[k])
                    &&& after.node(m.children[k]).parent == Some(Node { index: i as usize })
                } by {
                    assert(self.contains(n.children[k]));
                    assert(self.wf_node(n.children[k].index as int));
                }
            } else {
                assert(after.nodes[i].children =~= seq![self.root]);
            }
        }
    }
}

impl<T> View for Tree<T> {
    type V = TreeView<T>;

    closed spec fn view(&self) -> TreeView<T> {
        TreeView {
            nodes: Seq::new(
                self.slots@.len(),
                |i: int|
                    NodeView {
                        parent: self.slots@[i].parent,
                        value: self.slots@[i].value,
                        children: self.slots@[i].children@,
                        depth: self.depths@[i],
                    },
            ),
            root: self.root,
        }
    }
}

impl<T> Tree<T> {
    /// The arena and its model have the same shape.
    pub closed spec fn inv(&self) -> bool {
        self.depths@.len() == self.slots@.len()
    }

    /// The tree is sound, and so is the arena that holds it.
    pub open spec fn wf(&self) -> bool {
        self.inv() && self@.wf()
    }

    /// A tree of one node, its root, which holds no value.
    pub fn new() -> (tree: Tree<T>)
        ensures
            tree.wf(),
            tree@ == TreeView::<T>::single(),
    {
        let mut slots: Vec<Slot<T>> = Vec::new();
        slots.push(Slot { parent: None, value: None, children: Vec::new() });
        let tree = Tree { slots, root: Node { index: 0 }, depths: Ghost(Seq::empty().push(0nat)) };
        proof {
            assert(tree@.nodes =~= TreeView::<T>::single().nodes);
            assert(tree@.wf_node(0));
        }
        tree
    }

    /// The root: the one node without a parent.
    pub fn root(&self) -> (r: Node)
        ensures
            r == self@.root,
    {
        self.root
    }

    /// Number of nodes.
    pub fn len(&self) -> (n: usize)
        ensures
            n == self@.nodes.len(),
    {
        self.slots.len()
    }
}

impl Node {
    /// Adds a new last child holding `value` under this node, and returns it.
    pub fn branch<T>(&self, tree: &mut Tree<T>, value: T) -> (child: Node)
        requires
            old(tree).wf(),
            old(tree)@.contains(*self),
        ensures
            final(tree).wf(),
            final(tree)@ == old(tree)@.branch(*self, value),
            child == old(tree)@.fresh(),
    {
        let child = Node { index: tree.slots.len() };
        let ghost before = tree@;
        let ghost depth = tree.depths@[self.index as int] + 1;
        tree.slots.push(Slot { parent: Some(*self), value: Some(value), children: Vec::new() });
        tree.slots[self.index].children.push(child);
        let size = tree.slots.len();
        proof {
            assert(before.nodes.len() + 1 == size);
            tree.depths@ = tree.depths@.push(depth as nat);
            before.lemma_branch_wf(*self, value);
            assert(tree@.nodes =~= before.branch(*self, value).nodes);
        }
        child
    }

    /// The parent of this node; the root has none.
    pub fn try_get_parent<T>(&self, tree: &Tree<T>) -> (parent: Option<Node>)
        requires
            tree.wf(),
            tree@.contains(*self),
        ensures
            parent == tree@.node(*self).parent,
            parent matches Some(p) ==> tree@.contains(p),
    {
        proof {
            assert(tree@.wf_node(self.index as int));
        }
        tree.slots[self.index].parent
    }

    /// The parent of this node, made on demand: a node without one (the root)
    /// gets a new valueless parent, which becomes the root of the tree.
    fn get_or_create_parent<T>(&self, tree: &mut Tree<T>) -> (parent: Node)
        requires
            old(tree).wf(),
            old(tree)@.contains(*self),
        ensures
            final(tree).wf(),
            final(tree)@ == old(tree)@.with_parent_of(*self),
            parent == old(tree)@.parent_or_fresh(*self),
            final(tree)@.contains(parent),
    {
        let ghost before = tree@;
        proof {
            assert(before.wf_node(self.index as int));
        }
        match tree.slots[self.index].parent {
            Some(p) => p,
            None => {
                let top = Node { index: tree.slots.len() };
                let mut children: Vec<Node> = Vec::new();
                children.push(*self);
                tree.slots.push(Slot { parent: None, value: None, children });
                tree.slots[self.index].parent = Some(top);
                tree.root = top;
                let size = tree.slots.len();
                proof {
                    assert(before.nodes.len() + 1 == size);
                    assert(self.index == before.root.index);
                    tree.depths@ = Seq::new(
                        before.nodes.len(),
                        |i: int| (before.nodes[i].depth + 1) as nat,
                    ).push(0nat);
                    before.lemma_reroot_wf();
                    assert(tree@.nodes =~= before.reroot().nodes);
                }
                top
            },
        }
    }

    /// Adds a sibling of this node that holds `value`: a new last child of this
    /// node's parent, which is made first if the node has none.
    pub fn fork<T>(&self, tree: &mut Tree<T>, value: T) -> (sibling: Node)
        requires
            old(tree).wf(),
            old(tree)@.contains(*self),
        ensures
            final(tree).wf(),
            final(tree)@ == old(tree)@.with_parent_of(*self).branch(
                old(tree)@.parent_or_fresh(*self),
                value,
            ),
            sibling == old(tree)@.with_parent_of(*self).fresh(),
    {
        let parent = self.get_or_create_parent(tree);
        parent.branch(tree, value)
    }

    /// The children of this node, oldest first.
    pub fn get_children<'a, T>(&self, tree: &'a Tree<T>) -> (children: &'a Vec<Node>)
        requires
            tree.wf(),
            tree@.contains(*self),
        ensures
            children@ == tree@.node(*self).children,
    {
        &tree.slots[self.index].children
    }

    /// Follows the first child at every level down to a childless node.
    pub fn find_first_leaf<T>(&self, tree: &Tree<T>) -> (leaf: Node)
        requires
            tree.wf(),
            tree@.contains(*self),
        ensures
            leaf == tree@.first_leaf(*self),
            tree@.contains(leaf),
            tree@.is_leaf(leaf),
    {
        let mut node = *self;
        loop
            invariant
                tree.wf(),
                tree@.contains(node),
                tree@.first_leaf(node) == tree@.first_leaf(*self),
            decreases tree@.nodes.len() - tree@.node(node).depth,
        {
            proof {
                assert(tree@.wf_node(node.index as int));
            }
            if tree.slots[node.index].children.len() == 0 {
                return node;
            }
            let next = tree.slots[node.index].children[0];
            proof {
                assert(tree@.contains(next));
                assert(tree@.wf_node(next.index as int));
            }
            node = next;
        }
    }

    /// The value that this node holds; the root of a new tree holds none.
    pub fn value<T: Copy>(&self, tree: &Tree<T>) -> (value: Option<T>)
        requires
            tree.wf(),
            tree@.contains(*self),
        ensures
            value == tree@.node(*self).value,
    {
        tree.slots[self.index].value
    }

    /// The first child of this node that holds a value equal to `value`.
    pub fn find_child<T: PartialEq>(&self, tree: &Tree<T>, value: &T) -> (found: Option<Node>)
        requires
            tree.wf(),
            tree@.contains(*self),
            T::obeys_eq_spec(),
        ensures
            found == tree@.find_child(*self, *value),
            found matches Some(c) ==> tree@.contains(c),
    {
        let children = &tree.slots[self.index].children;
        let mut i: usize = 0;
        proof {
            assert(tree@.wf_node(self.index as int));
            assert(children@.skip(0) =~= children@);
        }
        while i < children.len()
            invariant
                tree.wf(),
                T::obeys_eq_spec(),
                tree@.contains(*self),
                children@ == tree@.node(*self).children,
                i <= children@.len(),
                tree@.find_among(children@.skip(i as int), *value) == tree@.find_child(
                    *self,
                    *value,
                ),
            decreases children@.len() - i,
        {
            let child = children[i];
            proof {
                assert(tree@.wf_node(self.index as int));
                assert(tree@.contains(child));
                assert(children@.skip(i as int)[0] == child);
                assert(children@.skip(i as int).drop_first() =~= children@.skip(i + 1));
            }
            let same = match &tree.slots[child.index].value {
                Some(held) => *held == *value,
                None => false,
            };
            if same {
                return Some(child);
            }
            i = i + 1;
        }
        None
    }

    /// The child of this node that holds a value equal to `value`: the first
    /// such child if there is one, a new last child otherwise.
    pub fn branch_or_find<T: PartialEq>(&self, tree: &mut Tree<T>, value: T) -> (child: Node)
        requires
            old(tree).wf(),
            old(tree)@.contains(*self),
            T::obeys_eq_spec(),
        ensures
            final(tree).wf(),
            final(tree)@ == old(tree)@.branch_or_find(*self, value).0,
            child == old(tree)@.branch_or_find(*self, value).1,
            final(tree)@.contains(child),
    {
        match self.find_child(tree, &value) {
            Some(child) => child,
            None => self.branch(tree, value),
        }
    }

    /// The sibling of this node that holds a value equal to `value`: this node
    /// itself if it does, else the first such child of its parent, else a new
    /// last child of its parent. A node without a parent is given one first.
    pub fn fork_or_find<T: PartialEq>(&self, tree: &mut Tree<T>, value: T) -> (sibling: Node)
        requires
            old(tree).wf(),
            old(tree)@.contains(*self),
            T::obeys_eq_spec(),
        ensures
            final(tree).wf(),
            final(tree)@ == old(tree)@.fork_or_find(*self, value).0,
            sibling == old(tree)@.fork_or_find(*self, value).1,
            final(tree)@.contains(sibling),
    {
        let same = match &tree.slots[self.index].value {
            Some(held) => *held == value,
            None => false,
        };
        if same {
            return *self;
        }
        let parent = self.get_or_create_parent(tree);
        parent.branch_or_find(tree, value)
    }
}

impl<T: PartialEq> TreeView<T> {
    /// Node `n` holds a value equal to `value`.
    pub open spec fn holds(self, n: Node, value: T) -> bool {
        self.node(n).value matches Some(held) && held.eq_spec(&value)
    }

    /// The first of `among` that holds a value equal to `value`.
    pub open spec fn find_among(self, among: Seq<Node>, value: T) -> Option<Node>
        decreases among.len(),
    {
        if among.len() == 0 {
            None
        } else if self.holds(among[0], value) {
            Some(among[0])
        } else {
            self.find_among(among.drop_first(), value)
        }
    }

    /// The first child of `parent` that holds a value equal to `value`.
    pub open spec fn find_child(self, parent: Node, value: T) -> Option<Node> {
        self.find_among(self.node(parent).children, value)
    }

    /// The tree in which `parent` is sure to have a child holding `value`, and
    /// that child: the first one that holds it already, or a new last child.
    pub open spec fn branch_or_find(self, parent: Node, value: T) -> (TreeView<T>, Node) {
        match self.find_child(parent, value) {
            Some(child) => (self, child),
            None => (self.branch(parent, value), self.fresh()),
        }
    }

    /// Nodes `a` and `b` both hold a value, and that of `a` equals that of `b`.
    pub open spec fn alike(self, a: Node, b: Node) -> bool {
        &&& self.node(a).value matches Some(first)
        &&& self.node(b).value matches Some(second)
        &&& first.eq_spec(&second)
    }

    /// No node has two children that hold equal values.
    pub open spec fn distinct_siblings(self) -> bool {
        forall|i: int, a: int, b: int|
            0 <= i < self.nodes.len() && 0 <= a < b < self.nodes[i].children.len()
                ==> !self.alike(
                #[trigger] self.nodes[i].children[a],
                #[trigger] self.nodes[i].children[b],
            )
    }

    /// What `find_among` finds is the first of `among` that holds the value.
    pub proof fn lemma_find_among(self, among: Seq<Node>, value: T)
        ensures
            match self.find_among(among, value) {
                Some(found) => exists|k: int|
                    {
                        &&& 0 <= k < among.len()
                        &&& #[trigger] among[k] == found
                        &&& self.holds(found, value)
                        &&& forall|j: int| 0 <= j < k ==> !self.holds(#[trigger] among[j], value)
                    },
                None => forall|j: int| 0 <= j < among.len() ==> !self.holds(
                    #[trigger] among[j],
                    value,
                ),
            },
        decreases among.len(),
    {
        if among.len() == 0 {
        } else if self.holds(among[0], value) {
            assert(among[0] == among[0]);
        } else {
            let tail = among.drop_first();
            self.lemma_find_among(tail, value);
            match self.find_among(tail, value) {
                Some(found) => {
                    let k = choose|k: int|
                        {
                            &&& 0 <= k < tail.len()
                            &&& #[trigger] tail[k] == found
                            &&& self.holds(found, value)
                            &&& forall|j: int|
                                0 <= j < k ==> !self.holds(#[trigger] tail[j], value)
                        };
                    assert(among[k + 1] == found);
                    assert forall|j: int| 0 <= j < k + 1 implies !self.holds(
                        #[trigger] among[j],
                        value,
                    ) by {
                        if j > 0 {
                            assert(among[j] == tail[j - 1]);
                        }
                    }
                },
                None => {
                    assert forall|j: int| 0 <= j < among.len() implies !self.holds(
                        #[trigger] among[j],
                        value,
                    ) by {
                        if j > 0 {
                            assert(among[j] == tail[j - 1]);
                        }
                    }
                },
            }
        }
    }

    /// Where none of `among` holds the value and `last` does, `last` is what
    /// `find_among` finds behind them.
    pub proof fn lemma_find_among_last(self, among: Seq<Node>, last: Node, value: T)
        requires
            forall|k: int| 0 <= k < among.len() ==> !self.holds(#[trigger] among[k], value),
            self.holds(last, value),
        ensures
            self.find_among(among.push(last), value) == Some(last),
        decreases among.len(),
    {
        let all = among.push(last);
        if among.len() == 0 {
            assert(all[0] == last);
        } else {
            assert(all[0] == among[0]);
            assert(all.drop_first() =~= among.drop_first().push(last));
            assert forall|k: int| 0 <= k < among.drop_first().len() implies !self.holds(
                #[trigger] among.drop_first()[k],
                value,
            ) by {
                assert(among.drop_first()[k] == among[k + 1]);
            }
            self.lemma_find_among_last(among.drop_first(), last, value);
        }
    }

    /// What is found among some nodes of a tree is found among them in every
    /// tree that extends it, however many nodes were added behind them.
    pub proof fn lemma_find_among_extended(
        self,
        old: TreeView<T>,
        among: Seq<Node>,
        longer: Seq<Node>,
        value: T,
    )
        requires
            self.extends(old),
            among.is_prefix_of(longer),
            forall|k: int| 0 <= k < among.len() ==> old.contains(#[trigger] among[k]),
            old.find_among(among, value) is Some,
        ensures
            self.find_among(longer, value) == old.find_among(among, value),
        decreases among.len(),
    {
        assert(among.len() > 0);
        assert(longer[0] == among[0]);
        assert(old.contains(among[0]));
        assert(self.nodes[among[0].index as int].value == old.nodes[among[0].index as int].value);
        if !old.holds(among[0], value) {
            assert(among.drop_first().is_prefix_of(longer.drop_first())) by {
                assert(among.drop_first() =~= longer.drop_first().subrange(
                    0,
                    among.len() - 1,
                ));
            }
            assert forall|k: int| 0 <= k < among.drop_first().len() implies old.contains(
                #[trigger] among.drop_first()[k],
            ) by {
                assert(among.drop_first()[k] == among[k + 1]);
            }
            self.lemma_find_among_extended(old, among.drop_first(), longer.drop_first(), value);
        }
    }

    /// The child that `branch_or_find` found or made is the child that is
    /// found in the tree it leaves, and in every tree that extends that one.
    pub proof fn lemma_found_again(self, parent: Node, value: T, later: TreeView<T>)
        requires
            self.wf(),
            self.contains(parent),
            self.branch_or_find(parent, value).0.nodes.len() <= usize::MAX,
            value.eq_spec(&value),
            later.extends(self.branch_or_find(parent, value).0),
        ensures
            later.branch_or_find(parent, value) == (later, self.branch_or_find(parent, value).1),
    {
        let grown = self.branch_or_find(parent, value).0;
        let child = self.branch_or_find(parent, value).1;
        let kids = self.node(parent).children;
        self.lemma_branch_or_find(parent, value);
        self.lemma_find_among(kids, value);
        assert(self.wf_node(parent.index as int));
        assert(grown.wf_node(parent.index as int));
        if self.find_child(parent, value) is None {
            assert forall|k: int| 0 <= k < kids.len() implies !grown.holds(
                #[trigger] kids[k],
                value,
            ) by {
                assert(self.contains(kids[k]));
                assert(!self.holds(kids[k], value));
            }
            grown.lemma_find_among_last(kids, child, value);
            assert(grown.node(parent).children =~= kids.push(child));
        }
        assert(grown.find_child(parent, value) == Some(child));
        let now = grown.node(parent).children;
        assert forall|k: int| 0 <= k < now.len() implies grown.contains(#[trigger] now[k]) by {}
        later.lemma_find_among_extended(grown, now, later.node(parent).children, value);
    }

    /// Looking for a child before adding one keeps the tree sound, keeps
    /// siblings distinct, and keeps every node but the root holding a value.
    pub proof fn lemma_branch_or_find(self, parent: Node, value: T)
        requires
            self.wf(),
            self.contains(parent),
            self.branch_or_find(parent, value).0.nodes.len() <= usize::MAX,
        ensures
            self.branch_or_find(parent, value).0.wf(),
            self.branch_or_find(parent, value).0.extends(self),
            self.branch_or_find(parent, value).0.contains(self.branch_or_find(parent, value).1),
            self.branch_or_find(parent, value).0.node(self.branch_or_find(parent, value).1).parent
                == Some(parent),
            self.distinct_siblings() ==> self.branch_or_find(parent, value).0.distinct_siblings(),
            self.complete() ==> self.branch_or_find(parent, value).0.complete(),
            self.branch_or_find(parent, value).0.root == self.root,
            self.branch_or_find(parent, value).0.nodes.len() >= self.nodes.len(),
    {
        let after = self.branch_or_find(parent, value).0;
        let child = self.branch_or_find(parent, value).1;
        let kids = self.node(parent).children;
        self.lemma_find_among(kids, value);
        assert(self.wf_node(parent.index as int));
        match self.find_child(parent, value) {
            Some(found) => {
                assert(self.contains(found));
                assert forall|i: int| 0 <= i < self.nodes.len() implies (
                #[trigger] self.nodes[i]).children.is_prefix_of(self.nodes[i].children) by {
                    let a = self.nodes[i].children;
                    assert(a =~= a.subrange(0, a.len() as int));
                }
            },
            None => {
                self.lemma_branch_wf(parent, value);
                self.lemma_branch_extends(parent, value);
                assert(after.node(parent).children[kids.len() as int] == child);
                if self.distinct_siblings() {
                    assert forall|i: int, a: int, b: int|
                        0 <= i < after.nodes.len() && 0 <= a < b < after.nodes[i].children.len()
                        implies !after.alike(
                        #[trigger] after.nodes[i].children[a],
                        #[trigger] after.nodes[i].children[b],
                    ) by {
                        if i < self.nodes.len() {
                            assert(self.wf_node(i));
                            let before = self.nodes[i].children;
                            if a < before.len() {
                                assert(self.contains(before[a]));
                            }
                            if b < before.len() {
                                assert(self.contains(before[b]));
                                assert(!self.alike(before[a], before[b]));
                            } else {
                                assert(i == parent.index);
                                assert(!self.holds(kids[a], value));
                            }
                        }
                    }
                }
                if self.complete() {
                    assert forall|i: int|
                        0 <= i < after.nodes.len() && i != after.root.index implies (
                    #[trigger] after.nodes[i]).value is Some by {
                        if i < self.nodes.len() {
                            assert(self.nodes[i].value is Some);
                        }
                    }
                }
            },
        }
    }

    /// The tree in which `n` is sure to have a sibling holding `value` (which
    /// may be `n` itself), and that sibling.
    pub open spec fn fork_or_find(self, n: Node, value: T) -> (TreeView<T>, Node) {
        if self.holds(n, value) {
            (self, n)
        } else {
            self.with_parent_of(n).branch_or_find(self.parent_or_fresh(n), value)
        }
    }
}

} // verus!
