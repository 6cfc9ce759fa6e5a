//! The tree under the buffer: leaves that name byte ranges of the arena,
//! inner nodes that join two subtrees, and the edits on them.
//!
//! A tree stands for the sequence of arena cells that an in-order walk of its
//! leaves passes. The edits are stated over that sequence alone; which bytes
//! the cells hold is the business of the buffer that owns the arena.

use vstd::prelude::*;
use vstd::pervasive::unreached;
use vstd::slice::slice_subrange;
use crate::arena::{
    arena_view, cell_ok, in_arena, lemma_in_arena_concat, lemma_read_concat, lemma_written_compose,
    lemma_written_nothing, read, written,
};
use crate::seqs::{
    cut, lemma_cut_concat, lemma_no_duplicates_concat, lemma_splice_concat, lemma_subrange_concat, min_int,
    min_usize, splice,
};
use crate::slice::RopeSlice;

verus! {

/// A position in the arena: the index of a buffer and of a byte in it.
pub type Cell = (int, int);

/// A leaf: the `len` bytes of arena buffer `buf` that start at byte `off`.
#[derive(Clone, Copy, Debug, PartialEq, Eq)]
pub struct Lnode {
    pub buf: usize,
    pub off: usize,
    pub len: usize,
}

/// An inner node. `weight` is the length of the whole left subtree.
#[derive(Debug, PartialEq, Eq)]
pub struct Inode {
    pub weight: usize,
    pub left: Option<Box<Node>>,
    pub right: Option<Box<Node>>,
}

/// A tree: a leaf, or an inner node over at most two subtrees.
#[derive(Debug, PartialEq, Eq)]
pub enum Node {
    Inner(Inode),
    Leaf(Lnode),
}

/// What an edit of a node asks of the node's owner.
#[derive(Debug, PartialEq, Eq)]
pub enum NodeAction {
    /// Nothing changed.
    NoChange,
    /// The node holds nothing any more: drop it.
    RemoveSelf,
    /// The node was edited in place; its length changed by the given amount.
    AdjustLength(isize),
    /// The given node takes the place of the edited one; the length of the
    /// subtree changed by the given amount.
    ReplaceWith(Box<Node>, isize),
}

/// The cells of an optional subtree; none where it is absent.
pub open spec fn opt_cells(n: Option<Box<Node>>) -> Seq<Cell> {
    match n {
        None => Seq::empty(),
        Some(b) => b.cells(),
    }
}

/// An optional subtree is well formed and, where present, not empty.
pub open spec fn opt_wf(n: Option<Box<Node>>) -> bool {
    match n {
        None => true,
        Some(b) => b.wf() && b.cells().len() > 0,
    }
}

impl Lnode {
    /// The arena cells that the leaf names, in order.
    pub open spec fn cells(self) -> Seq<Cell> {
        Seq::new(self.len as nat, |i: int| (self.buf as int, self.off + i))
    }

    /// A leaf is never empty, and its range ends within `usize`.
    pub open spec fn wf(self) -> bool {
        &&& 0 < self.len <= isize::MAX
        &&& self.off + self.len <= usize::MAX
    }

    /// The first `n` bytes of the leaf, as a leaf.
    pub open spec fn head(self, n: int) -> Lnode {
        Lnode { buf: self.buf, off: self.off, len: n as usize }
    }

    /// The leaf without its first `n` bytes, as a leaf.
    pub open spec fn tail(self, n: int) -> Lnode {
        Lnode { buf: self.buf, off: (self.off + n) as usize, len: (self.len - n) as usize }
    }

    /// The tree that takes the leaf's place when `node` is inserted at
    /// `start`: the node before the leaf, the leaf before the node, or the
    /// node between the two halves of the leaf.
    pub open spec fn spec_insert(self, node: Node, start: int) -> Node {
        let added = node.spec_len();
        if start == 0 {
            join(node, Node::Leaf(self))
        } else if start == self.len {
            join(Node::Leaf(self), node)
        } else {
            join(join(Node::Leaf(self.head(start)), node), Node::Leaf(self.tail(start)))
        }
    }

    /// What is left of the leaf once `start..end` is removed: nothing where
    /// the range covers the leaf, the leaf cut short at one end, or its two
    /// ends joined.
    pub open spec fn spec_remove(self, start: int, end: int) -> Option<Node> {
        if start == 0 && end >= self.len {
            None
        } else if start == 0 {
            Some(Node::Leaf(self.tail(end)))
        } else if end >= self.len {
            Some(Node::Leaf(self.head(start)))
        } else {
            Some(join(Node::Leaf(self.head(start)), Node::Leaf(self.tail(end))))
        }
    }
}

/// The inner node with the two given trees as its children.
pub open spec fn join(left: Node, right: Node) -> Node {
    Node::Inner(
        Inode { weight: left.spec_len() as usize, left: Some(Box::new(left)), right: Some(Box::new(right)) },
    )
}

/// An optional tree as an optional subtree.
pub open spec fn boxed(n: Option<Node>) -> Option<Box<Node>> {
    match n {
        None => None,
        Some(n) => Some(Box::new(n)),
    }
}

impl Inode {
    /// The cells of the left subtree, then those of the right.
    pub open spec fn cells(self) -> Seq<Cell> {
        opt_cells(self.left) + opt_cells(self.right)
    }

    /// Both children are well formed and not empty, the weight is the length
    /// of the left subtree, and the whole length fits a signed length change.
    pub open spec fn wf(self) -> bool {
        &&& opt_wf(self.left)
        &&& opt_wf(self.right)
        &&& self.weight == opt_cells(self.left).len()
        &&& opt_cells(self.left).len() + opt_cells(self.right).len() <= isize::MAX
    }
}

impl Node {
    /// The arena cells that the leaves of this tree name, in document order.
    pub open spec fn cells(self) -> Seq<Cell>
        decreases self,
    {
        match self {
            Node::Leaf(l) => l.cells(),
            Node::Inner(i) => {
                let left = match i.left {
                    None => Seq::empty(),
                    Some(b) => b.cells(),
                };
                let right = match i.right {
                    None => Seq::empty(),
                    Some(b) => b.cells(),
                };
                left + right
            },
        }
    }

    /// Every leaf and every inner node of the tree is well formed.
    pub open spec fn wf(self) -> bool
        decreases self,
    {
        match self {
            Node::Leaf(l) => l.wf(),
            Node::Inner(i) => {
                &&& match i.left {
                    None => true,
                    Some(b) => b.wf() && b.cells().len() > 0,
                }
                &&& match i.right {
                    None => true,
                    Some(b) => b.wf() && b.cells().len() > 0,
                }
                &&& i.weight == opt_cells(i.left).len()
                &&& opt_cells(i.left).len() + opt_cells(i.right).len() <= isize::MAX
            },
        }
    }

    /// The number of bytes that the tree stands for.
    pub open spec fn spec_len(self) -> nat {
        self.cells().len()
    }

    /// The tree after `node` is inserted at `start`. An inner node hands the
    /// node to its left subtree where `start` lies within the weight or on
    /// it, else to its right subtree; an absent child becomes the node.
    pub open spec fn spec_insert(self, node: Node, start: int) -> Node
        decreases self,
    {
        match self {
            Node::Leaf(l) => l.spec_insert(node, start),
            Node::Inner(i) => {
                if start <= i.weight {
                    let left = match i.left {
                        Some(l) => l.spec_insert(node, start),
                        None => node,
                    };
                    Node::Inner(
                        Inode {
                            weight: (i.weight + node.spec_len()) as usize,
                            left: Some(Box::new(left)),
                            right: i.right,
                        },
                    )
                } else {
                    let right = match i.right {
                        Some(r) => r.spec_insert(node, start - i.weight),
                        None => node,
                    };
                    Node::Inner(Inode { weight: i.weight, left: i.left, right: Some(Box::new(right)) })
                }
            },
        }
    }

    /// The leaves that hold the bytes `start..end` of the tree, in document
    /// order: an inner node looks to the left where the range starts within
    /// the weight, and to the right where it ends beyond the weight.
    pub open spec fn spec_find(self, start: int, end: int) -> Seq<Lnode>
        decreases self,
    {
        match self {
            Node::Leaf(l) => seq![l],
            Node::Inner(i) => {
                let left = match i.left {
                    Some(l) => if start < i.weight {
                        l.spec_find(start, end)
                    } else {
                        Seq::empty()
                    },
                    None => Seq::empty(),
                };
                let right = match i.right {
                    Some(r) => if end > i.weight {
                        r.spec_find(right_start(i.weight as int, start), end - i.weight)
                    } else {
                        Seq::empty()
                    },
                    None => Seq::empty(),
                };
                left + right
            },
        }
    }

    /// The offset of the byte `start` of the tree within the leaf that
    /// holds it.
    pub open spec fn spec_skip(self, start: int) -> int
        decreases self,
    {
        match self {
            Node::Leaf(l) => start,
            Node::Inner(i) => if start < i.weight {
                match i.left {
                    Some(l) => l.spec_skip(start),
                    None => 0,
                }
            } else {
                match i.right {
                    Some(r) => r.spec_skip(start - i.weight),
                    None => 0,
                }
            },
        }
    }

    /// Whether the removal of `start..end` puts another node in this node's
    /// place: a leaf that loses bytes from its middle is replaced by its two
    /// ends joined, an inner node that loses one child by the other.
    pub open spec fn remove_replaces(self, start: int, end: int) -> bool {
        match self {
            Node::Leaf(l) => 0 < start && end < l.len,
            Node::Inner(i) => {
                let left_removed = i.left is Some && start == 0 && end >= i.weight;
                let right_removed = i.right is Some && start <= i.weight && end >= self.spec_len();
                (left_removed && !right_removed && i.right is Some) || (right_removed && !left_removed
                    && i.left is Some)
            },
        }
    }

    /// What is left of the tree once `start..end` is removed. An inner node
    /// removes from its left subtree where `start` lies within the weight or
    /// on it, and from its right where `end` lies beyond the weight. Where a
    /// child goes, its sibling takes the node's place; where no child is
    /// left, the node goes.
    pub open spec fn spec_remove(self, start: int, end: int) -> Option<Node>
        decreases self,
    {
        match self {
            Node::Leaf(l) => l.spec_remove(start, end),
            Node::Inner(i) => {
                let from = if start < i.weight {
                    0
                } else {
                    start - i.weight
                };
                let left = match i.left {
                    None => None,
                    Some(l) => if start <= i.weight {
                        l.spec_remove(start, end)
                    } else {
                        Some(*l)
                    },
                };
                let right = match i.right {
                    None => None,
                    Some(r) => if end > i.weight {
                        r.spec_remove(from, end - i.weight)
                    } else {
                        Some(*r)
                    },
                };
                let left_removed = i.left is Some && left is None;
                let right_removed = i.right is Some && right is None;
                if left_removed {
                    right
                } else if right_removed {
                    left
                } else {
                    Some(
                        Node::Inner(
                            Inode {
                                weight: (match left {
                                    Some(l) => l.spec_len(),
                                    None => 0,
                                }) as usize,
                                left: boxed(left),
                                right: boxed(right),
                            },
                        ),
                    )
                }
            },
        }
    }
}

impl NodeAction {
    /// The change of length that the action reports.
    pub open spec fn delta(self) -> int {
        match self {
            NodeAction::AdjustLength(d) => d as int,
            NodeAction::ReplaceWith(_, d) => d as int,
            _ => 0,
        }
    }

    /// The node that stands, once the action is applied, where the edited
    /// node stood; `current` is the edited node as the edit left it.
    pub open spec fn successor(self, current: Node) -> Option<Node> {
        match self {
            NodeAction::NoChange => Some(current),
            NodeAction::AdjustLength(_) => Some(current),
            NodeAction::ReplaceWith(n, _) => Some(*n),
            NodeAction::RemoveSelf => None,
        }
    }
}

/// What inserting `added` at `start` into the node `before` must give:
/// a leaf is replaced and an inner node edited in place; the successor is
/// the tree that `spec_insert` describes; it is well formed and holds the
/// cells of `before` with those of `added` spliced in; and the reported
/// change is the added length.
pub open spec fn insert_post(before: Node, added: Node, start: int, res: NodeAction, after: Node) -> bool {
    &&& after.wf()
    &&& if before is Leaf {
        res is ReplaceWith
    } else {
        res is AdjustLength
    }
    &&& res.delta() == added.spec_len()
    &&& res.successor(after) == Some(before.spec_insert(added, start))
    &&& match res.successor(after) {
        Some(n) => n.wf() && n.cells() == splice(before.cells(), start, added.cells()),
        None => false,
    }
}

/// What removing the range `start..end` from the node `before` must give.
/// The range is cut off at the node's end. The successor is what
/// `spec_remove` describes. The node asks to be dropped exactly when the
/// range covers it, and is then left as it was; it is replaced exactly when
/// `remove_replaces` says so, and else edited in place. A successor is well
/// formed, not empty, and holds the cells that are left.
pub open spec fn remove_post(before: Node, start: int, end: int, res: NodeAction, after: Node) -> bool {
    let stop = min_int(end, before.spec_len() as int);
    &&& after.wf()
    &&& !(res is NoChange)
    &&& res.successor(after) == before.spec_remove(start, end)
    &&& res is RemoveSelf <==> start == 0 && end >= before.spec_len()
    &&& res is RemoveSelf ==> after == before
    &&& res is ReplaceWith <==> before.remove_replaces(start, end)
    &&& match res.successor(after) {
        Some(n) => n.wf() && n.spec_len() > 0 && n.cells() == cut(before.cells(), start, stop)
            && res.delta() == start - stop,
        None => true,
    }
}

impl Node {
    /// An inner node without children: the empty tree.
    pub fn empty_inner() -> (n: Node)
        ensures
            n == Node::Inner(Inode { weight: 0, left: None, right: None }),
            n.wf(),
            n.cells() == Seq::<Cell>::empty(),
    {
        Node::Inner(Inode { left: None, right: None, weight: 0 })
    }

    /// The inner node with the given children and weight.
    pub fn new_inner(left: Option<Box<Node>>, right: Option<Box<Node>>, weight: usize) -> (n: Node)
        ensures
            n == Node::Inner(Inode { weight, left, right }),
    {
        Node::Inner(Inode { left, right, weight })
    }

    /// The leaf over the `len` bytes of arena buffer `buf` from byte `off` on.
    pub fn new_leaf(buf: usize, off: usize, len: usize) -> (n: Node)
        ensures
            n == Node::Leaf(Lnode { buf, off, len }),
    {
        Node::Leaf(Lnode { buf, off, len })
    }

    /// The length of the tree: the weight plus the length of the right
    /// subtree, so only the right spine is walked.
    pub fn len(&self) -> (n: usize)
        requires
            self.wf(),
        ensures
            n == self.spec_len(),
        decreases self,
    {
        match self {
            Node::Inner(i) => match &i.right {
                Some(r) => i.weight + r.len(),
                None => i.weight,
            },
            Node::Leaf(l) => l.len,
        }
    }
}

impl Lnode {
    /// A leaf is never edited by an insertion: a new inner node joins it, or
    /// its two halves, with the added node.
    pub fn insert(&mut self, node: Box<Node>, start: usize) -> (res: NodeAction)
        requires
            old(self).wf(),
            node.wf(),
            node.spec_len() > 0,
            start <= old(self).len,
            old(self).len + node.spec_len() <= isize::MAX,
        ensures
            *final(self) == *old(self),
            insert_post(Node::Leaf(*old(self)), *node, start as int, res, Node::Leaf(*final(self))),
    {
        proof {
            reveal_with_fuel(Node::cells, 3);
            reveal_with_fuel(Node::wf, 3);
        }
        let len = node.len();
        let ghost added = node.cells();
        if start == 0 {
            let this = Box::new(Node::Leaf(*self));
            let new_node = Box::new(Node::new_inner(Some(node), Some(this), len));
            assert(new_node.cells() =~= splice(self.cells(), 0, added));
            return NodeAction::ReplaceWith(new_node, len as isize);
        }
        if start == self.len {
            let this = Box::new(Node::Leaf(*self));
            let new_node = Box::new(Node::new_inner(Some(this), Some(node), self.len));
            assert(new_node.cells() =~= splice(self.cells(), start as int, added));
            return NodeAction::ReplaceWith(new_node, len as isize);
        }
        let left = Some(Box::new(Node::new_leaf(self.buf, self.off, start)));
        let new_left = Box::new(Node::new_inner(left, Some(node), start));
        assert(new_left.cells() =~= self.cells().subrange(0, start as int) + added);
        let right = Some(Box::new(Node::new_leaf(self.buf, self.off + start, self.len - start)));
        assert(opt_cells(right) =~= self.cells().subrange(start as int, self.len as int));
        let new_node = Box::new(Node::new_inner(Some(new_left), right, start + len));
        assert(new_node.cells() =~= splice(self.cells(), start as int, added));
        NodeAction::ReplaceWith(new_node, len as isize)
    }

    /// Removes `start..end`, cut off at the leaf's end: the leaf is dropped,
    /// shortened at one end, or split around the gap.
    pub fn remove(&mut self, start: usize, end: usize) -> (res: NodeAction)
        requires
            old(self).wf(),
            start < end,
            start <= old(self).len,
        ensures
            remove_post(Node::Leaf(*old(self)), start as int, end as int, res, Node::Leaf(*final(self))),
    {
        proof {
            reveal_with_fuel(Node::cells, 2);
            reveal_with_fuel(Node::wf, 2);
        }
        if start == 0 && end >= self.len {
            return NodeAction::RemoveSelf;
        }
        let old_len = self.len;
        let ghost before = self.cells();
        if start == 0 {
            self.off = self.off + end;
            self.len = old_len - end;
            assert(self.cells() =~= cut(before, 0, end as int));
            return NodeAction::AdjustLength(-(end as isize));
        }
        if end >= self.len {
            self.len = start;
            assert(self.cells() =~= cut(before, start as int, old_len as int));
            return NodeAction::AdjustLength(start as isize - old_len as isize);
        }
        let delta = -((end - start) as isize);
        let left = Box::new(Node::new_leaf(self.buf, self.off, start));
        let right = Box::new(Node::new_leaf(self.buf, self.off + end, old_len - end));
        let new_node = Node::new_inner(Some(left), Some(right), start);
        assert(new_node.cells() =~= cut(before, start as int, end as int));
        NodeAction::ReplaceWith(Box::new(new_node), delta)
    }
}

impl NodeAction {
    /// Whether the action asks for the node to be dropped.
    pub fn asks_removal(&self) -> (b: bool)
        ensures
            b == (self is RemoveSelf),
    {
        match self {
            NodeAction::RemoveSelf => true,
            _ => false,
        }
    }
}

impl Node {
    /// Inserts the tree `node` so that its first byte comes to stand at
    /// offset `start` of this tree.
    pub fn insert(&mut self, node: Box<Node>, start: usize) -> (res: NodeAction)
        requires
            old(self).wf(),
            node.wf(),
            node.spec_len() > 0,
            start <= old(self).spec_len(),
            old(self).spec_len() + node.spec_len() <= isize::MAX,
        ensures
            insert_post(*old(self), *node, start as int, res, *final(self)),
        decreases *old(self),
    {
        match self {
            Node::Inner(i) => i.insert(node, start),
            Node::Leaf(l) => l.insert(node, start),
        }
    }

    /// Removes the bytes at the offsets `start..end` of this tree; an `end`
    /// beyond the tree's length stands for that length.
    pub fn remove(&mut self, start: usize, end: usize) -> (res: NodeAction)
        requires
            old(self).wf(),
            old(self).spec_len() > 0,
            start < end,
            start <= old(self).spec_len(),
        ensures
            remove_post(*old(self), start as int, end as int, res, *final(self)),
        decreases *old(self),
    {
        match self {
            Node::Inner(i) => i.remove(start, end),
            Node::Leaf(l) => l.remove(start, end),
        }
    }
}

impl Inode {
    /// Hands the new node down: to the left where `start` is within the
    /// weight or on it, else to the right. An absent child is set to the node.
    pub fn insert(&mut self, node: Box<Node>, start: usize) -> (res: NodeAction)
        requires
            old(self).wf(),
            node.wf(),
            node.spec_len() > 0,
            start <= old(self).cells().len(),
            old(self).cells().len() + node.spec_len() <= isize::MAX,
        ensures
            insert_post(Node::Inner(*old(self)), *node, start as int, res, Node::Inner(*final(self))),
        decreases *old(self),
    {
        let ghost lc = opt_cells(self.left);
        let ghost rc = opt_cells(self.right);
        proof {
            lemma_splice_concat(lc, rc, start as int, node.cells());
        }
        if start <= self.weight {
            let adj = insert_in(&mut self.left, node, start);
            self.weight = self.weight + adj as usize;
            NodeAction::AdjustLength(adj)
        } else {
            let adj = insert_in(&mut self.right, node, start - self.weight);
            NodeAction::AdjustLength(adj)
        }
    }

    /// Removes `start..end` from the two subtrees. A child that asks to be
    /// dropped leaves its sibling in this node's place; where no child is
    /// left, the node asks to be dropped itself.
    pub fn remove(&mut self, start: usize, end: usize) -> (res: NodeAction)
        requires
            old(self).wf(),
            old(self).cells().len() > 0,
            start < end,
            start <= old(self).cells().len(),
        ensures
            remove_post(Node::Inner(*old(self)), start as int, end as int, res, Node::Inner(*final(self))),
        decreases *old(self),
    {
        let weight = self.weight;
        let left_action = if start <= weight {
            remove_in(&mut self.left, start, end)
        } else {
            NodeAction::NoChange
        };
        let from = if start < weight {
            0
        } else {
            start - weight
        };
        let right_action = if end > weight {
            remove_in(&mut self.right, from, end - weight)
        } else {
            NodeAction::NoChange
        };
        assert(from == right_start(weight as int, start as int));
        self.resolve(left_action, right_action, Ghost(*old(self)), Ghost(start as int), Ghost(end as int))
    }

    /// Decides what becomes of the node once both sides have had their part
    /// of the range `start..end` removed; `before` is the node as it was.
    #[verifier::rlimit(30)]
    fn resolve(
        &mut self,
        left_action: NodeAction,
        right_action: NodeAction,
        Ghost(before): Ghost<Inode>,
        Ghost(start): Ghost<int>,
        Ghost(end): Ghost<int>,
    ) -> (res: NodeAction)
        requires
            before.wf(),
            before.cells().len() > 0,
            0 <= start < end,
            start <= before.cells().len(),
            old(self).weight == before.weight,
            side_post(before.left, start <= before.weight, start, end, left_action, old(self).left),
            side_post(
                before.right,
                end > before.weight,
                right_start(before.weight as int, start),
                end - before.weight,
                right_action,
                old(self).right,
            ),
        ensures
            remove_post(Node::Inner(before), start, end, res, Node::Inner(*final(self))),
    {
        let weight = self.weight;
        let ghost from = right_start(before.weight as int, start);
        proof {
            lemma_cut_concat(opt_cells(before.left), opt_cells(before.right), start, end);
        }
        let left_removed = left_action.asks_removal();
        let right_removed = right_action.asks_removal();
        if (left_removed && right_removed) || (left_removed && self.right.is_none()) || (
        right_removed && self.left.is_none()) {
            return NodeAction::RemoveSelf;
        }
        let right_len = if right_removed {
            match &self.right {
                Some(right) => right.len(),
                None => 0,
            }
        } else {
            0
        };
        let (left, left_adj) = leftover(
            &mut self.left,
            left_action,
            Ghost(before.left),
            Ghost(start <= before.weight),
            Ghost(start),
            Ghost(end),
        );
        let (right, right_adj) = leftover(
            &mut self.right,
            right_action,
            Ghost(before.right),
            Ghost(end > before.weight),
            Ghost(from),
            Ghost(end - before.weight),
        );
        self.weight = 0;
        if left_removed {
            self.left = None;
            return NodeAction::ReplaceWith(right.unwrap(), right_adj - weight as isize);
        }
        if right_removed {
            self.right = None;
            return NodeAction::ReplaceWith(left.unwrap(), left_adj - right_len as isize);
        }
        self.left = left;
        self.right = right;
        self.weight = (weight as isize + left_adj) as usize;
        NodeAction::AdjustLength(left_adj + right_adj)
    }
}

/// Where in the right subtree a range starts that starts at `start` of an
/// inner node with the given weight.
pub open spec fn right_start(weight: int, start: int) -> int {
    if start < weight {
        0
    } else {
        start - weight
    }
}

/// What is left of one side of an inner node once `start..end` is removed
/// from it, where `entered` says whether the range reaches that side.
pub open spec fn side_remains(before: Option<Box<Node>>, entered: bool, start: int, end: int) -> Option<
    Node,
> {
    match before {
        None => None,
        Some(b) => if entered {
            b.spec_remove(start, end)
        } else {
            Some(*b)
        },
    }
}

/// The cells on one side of an inner node once `start..end` is removed
/// from it.
pub open spec fn side_cells(before: Option<Box<Node>>, entered: bool, start: int, end: int) -> Seq<Cell> {
    if entered {
        cut(opt_cells(before), start, min_int(end, opt_cells(before).len() as int))
    } else {
        opt_cells(before)
    }
}

/// Takes out of the slot of a side what the removal left of that side, and
/// returns it with the change of length that the action reports. A side that
/// asks to be dropped stays in its slot.
fn leftover(
    slot: &mut Option<Box<Node>>,
    action: NodeAction,
    Ghost(before): Ghost<Option<Box<Node>>>,
    Ghost(entered): Ghost<bool>,
    Ghost(start): Ghost<int>,
    Ghost(end): Ghost<int>,
) -> (res: (Option<Box<Node>>, isize))
    requires
        opt_wf(before),
        entered ==> 0 <= start < end && start <= opt_cells(before).len(),
        side_post(before, entered, start, end, action, *old(slot)),
    ensures
        res.0 == boxed(side_remains(before, entered, start, end)),
        opt_wf(res.0),
        opt_cells(res.0) == side_cells(before, entered, start, end),
        action is RemoveSelf ==> *final(slot) == before && res.0 is None && res.1 == 0,
        action is RemoveSelf <==> before is Some && entered && start == 0 && end >= opt_cells(before).len(),
        !(action is RemoveSelf) ==> *final(slot) is None && res.1 == opt_cells(res.0).len() - opt_cells(
            before,
        ).len(),
{
    proof {
        let cells = opt_cells(before);
        assert(cut(cells, 0, cells.len() as int) =~= Seq::<Cell>::empty());
        if entered && before is None {
            assert(cut(cells, start, 0) =~= cells);
        }
    }
    match action {
        NodeAction::RemoveSelf => (None, 0),
        NodeAction::ReplaceWith(n, adj) => {
            *slot = None;
            (Some(n), adj)
        },
        NodeAction::AdjustLength(adj) => (slot.take(), adj),
        NodeAction::NoChange => (slot.take(), 0),
    }
}

/// What the removal of `start..end` from one side of an inner node must
/// give, where `entered` says whether the range reaches that side at all.
pub open spec fn side_post(
    before: Option<Box<Node>>,
    entered: bool,
    start: int,
    end: int,
    res: NodeAction,
    after: Option<Box<Node>>,
) -> bool {
    if !entered {
        res is NoChange && after == before
    } else {
        match before {
            None => res is NoChange && after is None,
            Some(b) => match after {
                None => false,
                Some(a) => remove_post(*b, start, end, res, *a),
            },
        }
    }
}

/// Removes `start..end` from the subtree in the slot, if there is one.
fn remove_in(slot: &mut Option<Box<Node>>, start: usize, end: usize) -> (res: NodeAction)
    requires
        opt_wf(*old(slot)),
        start < end,
        start <= opt_cells(*old(slot)).len(),
    ensures
        side_post(*old(slot), true, start as int, end as int, res, *final(slot)),
    decreases *old(slot),
{
    match slot {
        Some(child) => child.remove(start, end),
        None => NodeAction::NoChange,
    }
}

/// Inserts `node` at `start` into the subtree in the slot; an empty slot
/// takes the node itself. Returns the change of length.
fn insert_in(slot: &mut Option<Box<Node>>, node: Box<Node>, start: usize) -> (adj: isize)
    requires
        opt_wf(*old(slot)),
        node.wf(),
        node.spec_len() > 0,
        start <= opt_cells(*old(slot)).len(),
        opt_cells(*old(slot)).len() + node.spec_len() <= isize::MAX,
    ensures
        adj == node.spec_len(),
        opt_wf(*final(slot)),
        opt_cells(*final(slot)) == splice(opt_cells(*old(slot)), start as int, node.cells()),
        *final(slot) == Some(
            Box::new(
                match *old(slot) {
                    Some(child) => child.spec_insert(*node, start as int),
                    None => *node,
                },
            ),
        ),
    decreases *old(slot),
{
    let action = match slot {
        Some(child) => child.insert(node, start),
        None => {
            let len = node.len();
            assert(node.cells() =~= splice(Seq::<Cell>::empty(), 0, node.cells()));
            NodeAction::ReplaceWith(node, len as isize)
        },
    };
    match action {
        NodeAction::ReplaceWith(n, adj) => {
            *slot = Some(n);
            adj
        },
        NodeAction::AdjustLength(adj) => adj,
        _ => unreached(),
    }
}

impl Lnode {
    /// Writes `text` over the bytes of the leaf from offset `start` on.
    pub fn replace(&self, start: usize, text: &[u8], storage: &mut Vec<Vec<u8>>)
        requires
            self.wf(),
            in_arena(self.cells(), arena_view(old(storage))),
            start + text@.len() <= self.len,
        ensures
            written(
                arena_view(old(storage)),
                arena_view(final(storage)),
                self.cells().subrange(start as int, start + text@.len()),
                text@,
            ),
    {
        let n = text.len();
        let base = self.off + start;
        let ghost before = arena_view(storage);
        let ghost cells = self.cells();
        assert(cell_ok(before, cells[0]));
        assert(cell_ok(before, cells[self.len - 1]));
        let mut k: usize = 0;
        while k < n
            invariant
                k <= n,
                n == text@.len(),
                base == self.off + start,
                start + n <= self.len,
                self.wf(),
                cells == self.cells(),
                self.buf < before.len(),
                self.off + self.len <= before[self.buf as int].len(),
                written(before, arena_view(storage), cells.subrange(start as int, start + k), text@.subrange(0, k as int)),
            decreases n - k,
        {
            let ghost mid = arena_view(storage);
            let ghost done = cells.subrange(start as int, start + k);
            storage[self.buf][base + k] = text[k];
            proof {
                let now = arena_view(storage);
                let next = cells.subrange(start as int, start + k + 1);
                let bytes = text@.subrange(0, k + 1);
                assert(next[k as int] == (self.buf as int, base + k));
                assert forall|j: int| 0 <= j < next.len() implies now[(#[trigger] next[j]).0][next[j].1]
                    == bytes[j] by {
                    if j < k {
                        assert(next[j] == done[j]);
                        assert(next[j] == (self.buf as int, base + j));
                    }
                }
                assert forall|c: Cell| cell_ok(before, c) && !next.contains(c) implies now[c.0][c.1]
                    == before[c.0][c.1] by {
                    assert(c != next[k as int]);
                    if done.contains(c) {
                        let j = choose|j: int| 0 <= j < done.len() && done[j] == c;
                        assert(next[j] == c);
                    }
                }
            }
            k += 1;
        }
        assert(text@.subrange(0, n as int) =~= text@);
    }
}

impl Node {
    /// Writes `text` over the bytes of the tree from offset `start` on. The
    /// tree itself is left as it is: only the arena changes.
    pub fn replace(&self, start: usize, text: &[u8], storage: &mut Vec<Vec<u8>>)
        requires
            self.wf(),
            in_arena(self.cells(), arena_view(old(storage))),
            self.cells().no_duplicates(),
            start + text@.len() <= self.spec_len(),
        ensures
            written(
                arena_view(old(storage)),
                arena_view(final(storage)),
                self.cells().subrange(start as int, start + text@.len()),
                text@,
            ),
        decreases self,
    {
        match self {
            Node::Inner(i) => i.replace(start, text, storage),
            Node::Leaf(l) => l.replace(start, text, storage),
        }
    }
}

impl Inode {
    /// Hands to each subtree the part of `text` that falls into it.
    pub fn replace(&self, start: usize, text: &[u8], storage: &mut Vec<Vec<u8>>)
        requires
            self.wf(),
            in_arena(self.cells(), arena_view(old(storage))),
            self.cells().no_duplicates(),
            start + text@.len() <= self.cells().len(),
        ensures
            written(
                arena_view(old(storage)),
                arena_view(final(storage)),
                self.cells().subrange(start as int, start + text@.len()),
                text@,
            ),
        decreases self,
    {
        let n = text.len();
        let end = start + n;
        let ghost a = arena_view(storage);
        let ghost lc = opt_cells(self.left);
        let ghost rc = opt_cells(self.right);
        proof {
            lemma_in_arena_concat(lc, rc, a);
            lemma_no_duplicates_concat(lc, rc);
            lemma_subrange_concat(lc, rc, start as int, end as int);
            lemma_written_nothing(a);
        }
        let ghost mut c1: Seq<Cell> = Seq::empty();
        let ghost mut t1: Seq<u8> = Seq::empty();
        if start < self.weight {
            match &self.left {
                Some(left) => {
                    let take = min_usize(self.weight - start, n);
                    left.replace(start, slice_subrange(text, 0, take), storage);
                    proof {
                        c1 = lc.subrange(start as int, start + take);
                        t1 = text@.subrange(0, take as int);
                    }
                },
                None => {},
            }
        }
        let ghost b = arena_view(storage);
        let ghost mut c2: Seq<Cell> = Seq::empty();
        let ghost mut t2: Seq<u8> = Seq::empty();
        if end > self.weight {
            let (from, skip) = if start < self.weight {
                (0, self.weight - start)
            } else {
                (start - self.weight, 0)
            };
            match &self.right {
                Some(right) => {
                    proof {
                        assert(in_arena(rc, b)) by {
                            assert forall|i: int| 0 <= i < rc.len() implies cell_ok(b, #[trigger] rc[i]) by {
                                assert(cell_ok(a, rc[i]));
                            }
                        }
                    }
                    right.replace(from, slice_subrange(text, skip, n), storage);
                    proof {
                        c2 = rc.subrange(from as int, end - self.weight);
                        t2 = text@.subrange(skip as int, n as int);
                    }
                },
                None => {},
            }
        }
        proof {
            let c = arena_view(storage);
            lemma_written_nothing(b);
            assert(in_arena(c1, a)) by {
                assert forall|i: int| 0 <= i < c1.len() implies cell_ok(a, #[trigger] c1[i]) by {
                    assert(c1[i] == lc[start + i]);
                }
            }
            lemma_written_compose(a, b, c, c1, t1, c2, t2);
            assert(t1 + t2 =~= text@);
            assert(c1 + c2 =~= self.cells().subrange(start as int, end as int));
        }
    }
}

/// What collecting the range `start..end` of `node` into a view must
/// give: the view has the leaves that hold the range behind those it had;
/// where it had none, it skips in its first leaf what lies before the range;
/// it goes on with the cells of the range, cut off at the node's end; and it
/// can be continued where the range reaches that end.
pub open spec fn find_post(node: Node, start: int, end: int, before: RopeSlice, after: RopeSlice) -> bool {
    &&& after.wf()
    &&& after.arena() == before.arena()
    &&& after.leaves() == before.leaves() + node.spec_find(start, end)
    &&& after.leaves().len() > 0
    &&& after.skip() == if before.leaves().len() == 0 {
        node.spec_skip(start)
    } else {
        before.skip()
    }
    &&& after.cells() == before.cells() + node.cells().subrange(start, min_int(end, node.spec_len() as int))
    &&& end >= node.spec_len() ==> after.open_ended()
}

impl Lnode {
    /// Appends the leaf to the view, which shows its bytes `start..end`.
    pub fn find_slice<'a>(&'a self, start: usize, end: usize, slice: &mut RopeSlice<'a>)
        requires
            self.wf(),
            start < end,
            start < self.len,
            old(slice).wf(),
            old(slice).open_ended(),
            in_arena(self.cells(), old(slice).arena()),
            start > 0 ==> old(slice).cells().len() == 0,
            old(slice).cells().len() + min_int(end as int, self.len as int) - start <= usize::MAX,
        ensures
            find_post(Node::Leaf(*self), start as int, end as int, *old(slice), *final(slice)),
    {
        slice.push_leaf(self, start, end);
        assert(old(slice).leaves().push(*self) =~= old(slice).leaves() + seq![*self]);
    }
}

impl Node {
    /// Appends to the view the leaves that hold the bytes `start..end` of
    /// this tree, in document order.
    pub fn find_slice<'a>(&'a self, start: usize, end: usize, slice: &mut RopeSlice<'a>)
        requires
            self.wf(),
            start < end,
            start < self.spec_len(),
            old(slice).wf(),
            old(slice).open_ended(),
            in_arena(self.cells(), old(slice).arena()),
            start > 0 ==> old(slice).cells().len() == 0,
            old(slice).cells().len() + min_int(end as int, self.spec_len() as int) - start <= usize::MAX,
        ensures
            find_post(*self, start as int, end as int, *old(slice), *final(slice)),
        decreases self,
    {
        match self {
            Node::Inner(i) => i.find_slice(start, end, slice),
            Node::Leaf(l) => l.find_slice(start, end, slice),
        }
    }
}

impl Inode {
    /// Collects from the left subtree where the range starts within the
    /// weight, then from the right where it ends beyond it.
    pub fn find_slice<'a>(&'a self, start: usize, end: usize, slice: &mut RopeSlice<'a>)
        requires
            self.wf(),
            start < end,
            start < self.cells().len(),
            old(slice).wf(),
            old(slice).open_ended(),
            in_arena(self.cells(), old(slice).arena()),
            start > 0 ==> old(slice).cells().len() == 0,
            old(slice).cells().len() + min_int(end as int, self.cells().len() as int) - start <= usize::MAX,
        ensures
            find_post(Node::Inner(*self), start as int, end as int, *old(slice), *final(slice)),
        decreases self,
    {
        let ghost lc = opt_cells(self.left);
        let ghost rc = opt_cells(self.right);
        let ghost stop = min_int(end as int, (lc.len() + rc.len()) as int);
        let ghost shown = slice.cells();
        let ghost had = slice.leaves();
        proof {
            lemma_in_arena_concat(lc, rc, slice.arena());
            lemma_subrange_concat(lc, rc, start as int, stop);
        }
        let weight = self.weight;
        if start < weight {
            match &self.left {
                Some(left) => left.find_slice(start, end, slice),
                None => {},
            }
        }
        if end > weight {
            match &self.right {
                Some(right) => {
                    let from = if start < weight {
                        0
                    } else {
                        start - weight
                    };
                    right.find_slice(from, end - weight, slice);
                },
                None => {},
            }
        }
        proof {
            let l2 = if start < lc.len() {
                lc.subrange(start as int, min_int(stop, lc.len() as int))
            } else {
                Seq::empty()
            };
            let from = if start < lc.len() {
                0
            } else {
                start - lc.len()
            };
            let r2 = if stop > lc.len() {
                rc.subrange(from, stop - lc.len())
            } else {
                Seq::empty()
            };
            assert(slice.cells() =~= shown + (l2 + r2));
            assert(slice.leaves() =~= had + Node::Inner(*self).spec_find(start as int, end as int));
        }
    }
}

impl Lnode {
    /// Appends the bytes of the leaf to `out`.
    pub fn append_to(&self, storage: &Vec<Vec<u8>>, out: &mut Vec<u8>)
        requires
            self.wf(),
            in_arena(self.cells(), arena_view(storage)),
        ensures
            final(out)@ == old(out)@ + read(arena_view(storage), self.cells()),
    {
        proof {
            assert(cell_ok(arena_view(storage), self.cells()[0]));
            assert(cell_ok(arena_view(storage), self.cells()[self.len - 1]));
        }
        out.extend_from_slice(slice_subrange(storage[self.buf].as_slice(), self.off, self.off + self.len));
        assert(out@ =~= old(out)@ + read(arena_view(storage), self.cells()));
    }
}

impl Node {
    /// Appends the bytes of the tree to `out`, in document order.
    pub fn append_to(&self, storage: &Vec<Vec<u8>>, out: &mut Vec<u8>)
        requires
            self.wf(),
            in_arena(self.cells(), arena_view(storage)),
        ensures
            final(out)@ == old(out)@ + read(arena_view(storage), self.cells()),
        decreases self,
    {
        match self {
            Node::Inner(i) => {
                let ghost lc = opt_cells(i.left);
                let ghost rc = opt_cells(i.right);
                proof {
                    lemma_in_arena_concat(lc, rc, arena_view(storage));
                    lemma_read_concat(arena_view(storage), lc, rc);
                }
                match &i.left {
                    Some(left) => left.append_to(storage, out),
                    None => {},
                }
                match &i.right {
                    Some(right) => right.append_to(storage, out),
                    None => {},
                }
                assert(out@ =~= old(out)@ + (read(arena_view(storage), lc) + read(arena_view(storage), rc)));
            },
            Node::Leaf(l) => l.append_to(storage, out),
        }
    }
}

} // verus!
