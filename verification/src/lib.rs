//! An indexable sequence backed by a red-black tree whose implicit key is the
//! rank of an element, that is its position in the sequence.
//!
//! Every node stores the number of nodes of the subtree below it, so the
//! element at a given rank is found, inserted or removed in time logarithmic
//! in the length of the sequence. The nodes live in a slot store and refer to
//! each other by slot handle; free slots are kept on a free list and used
//! again.
//!
//! The abstract value of a [`TList`] is the sequence of its elements, written
//! `list@`. Beside the slots the list carries ghost state: the handles in
//! sequence order, and for every node the span of positions that its subtree
//! covers. The structural invariant ties each node to its neighbours through
//! those spans, so that every step of a proof only looks at a node, its
//! parent and its children.
//!
//! The invariant of a list between two operations is [`TList::wf`]: the
//! slots form one tree over the sequence with a correct size in every node,
//! the root is black and no red node has a red child. That all paths down
//! to an absent child pass through the same number of black nodes is
//! [`TList::black_balanced`]. An empty list has that property and every
//! operation that edits a list keeps it; a list built by
//! [`TList::from_data`] has it for some lengths only.
//!
//! This file holds the types and everything that the contracts are stated
//! in. The operations stand in the modules beside it.

use vstd::prelude::*;

mod arena;
mod bulk;
mod copy;
mod insert;
mod iter;
mod laws;
mod paint;
mod parts;
mod remove;
mod rotate;
mod search;
mod transform;

pub use arena::INITIAL_SIZE;
pub use bulk::{NodeLoc, DEFAULT_STACK_DEPTH};
pub use iter::{IntoIter, Iter};
pub use laws::{lemma_insert_at_end_appends, lemma_remove_undoes_insert};

verus! {

/// Colour of a node.
#[derive(Debug, Clone, Copy, PartialEq, Eq, Structural)]
pub enum Color {
    Red,
    Black,
}

/// Side of a child below its parent.
#[derive(Debug, Clone, Copy, PartialEq, Eq, Structural)]
pub enum Dir {
    Left,
    Right,
}

/// One element of the sequence together with its place in the tree.
#[derive(Debug)]
pub struct Node<T> {
    /// The element.
    pub data: T,
    /// The colour used for balancing.
    pub color: Color,
    /// Handle of the parent, absent at the root.
    pub parent: Option<usize>,
    /// Handle of the left child.
    pub left: Option<usize>,
    /// Handle of the right child.
    pub right: Option<usize>,
    /// Number of nodes of the subtree rooted here, this node included.
    pub size: usize,
}

/// The positions that the subtree of a node covers: the half-open range from
/// `lo` to `hi`, with the node itself at `pos`.
pub struct Span {
    /// The first position of the subtree.
    pub lo: int,
    /// The position of the node itself.
    pub pos: int,
    /// The position behind the last one of the subtree.
    pub hi: int,
}

/// An indexable list with logarithmic insertion, removal and access by rank.
pub struct TList<T> {
    node_list: Vec<Option<Node<T>>>,
    free_list: Vec<usize>,
    root_idx: usize,
    /// The handles of the occupied slots, in sequence order.
    order: Ghost<Seq<usize>>,
    /// For every occupied slot the positions covered by its subtree.
    span: Ghost<Map<usize, Span>>,
}

/// The span `s` after an element has been inserted at rank `k`: a span
/// that holds `k` or ends at `k` grows by one, a span behind `k` moves up by
/// one, a span before `k` stays.
pub(crate) closed spec fn span_after_insert(s: Span, k: int) -> Span {
    if s.lo <= k <= s.hi {
        Span { lo: s.lo, pos: if k <= s.pos { s.pos + 1 } else { s.pos }, hi: s.hi + 1 }
    } else if k < s.lo {
        Span { lo: s.lo + 1, pos: s.pos + 1, hi: s.hi + 1 }
    } else {
        s
    }
}

/// The other side.
pub(crate) closed spec fn flip(d: Dir) -> Dir {
    match d {
        Dir::Left => Dir::Right,
        Dir::Right => Dir::Left,
    }
}

/// The child link of `n` on the side `d`.
pub(crate) closed spec fn kid<T>(n: Node<T>, d: Dir) -> Option<usize> {
    match d {
        Dir::Left => n.left,
        Dir::Right => n.right,
    }
}

/// One for a black node, zero for a red one.
pub open spec fn black_weight(c: Color) -> nat {
    match c {
        Color::Black => 1,
        Color::Red => 0,
    }
}

/// The link `c`, led to `y` where it led to `h`.
pub(crate) closed spec fn redirected(c: Option<usize>, h: usize, y: usize) -> Option<usize> {
    if c == Some(h) {
        Some(y)
    } else {
        c
    }
}

/// The span `s` after the element at position `p` has been removed: a span
/// that holds `p` shrinks by one, a span behind `p` moves down by one, a
/// span before `p` stays.
pub(crate) closed spec fn span_after_remove(s: Span, p: int) -> Span {
    if s.lo <= p < s.hi {
        Span { lo: s.lo, pos: if p < s.pos { s.pos - 1 } else { s.pos }, hi: s.hi - 1 }
    } else if p < s.lo {
        Span { lo: s.lo - 1, pos: s.pos - 1, hi: s.hi - 1 }
    } else {
        s
    }
}

/// Black height recorded for a child link; an absent child counts zero.
pub open spec fn black_height_of(bh: Map<usize, nat>, c: Option<usize>) -> nat {
    match c {
        Some(y) => bh[y],
        None => 0,
    }
}

impl<T> View for TList<T> {
    type V = Seq<T>;

    /// The sequence of elements.
    closed spec fn view(&self) -> Seq<T> {
        Seq::new(self.order@.len(), |i: int| self.node(self.order@[i]).data)
    }
}

impl<T> TList<T> {
    // ----- the slots -----------------------------------------------------

    /// Number of slots, occupied or free.
    pub closed spec fn slots(&self) -> nat {
        self.node_list@.len()
    }

    /// The free slots in the order in which they were listed; the slot
    /// listed last is the next to be used.
    pub closed spec fn free_slots(&self) -> Seq<usize> {
        self.free_list@
    }

    /// The slot that the next new element takes: the free slot listed last,
    /// or the last of the slots by which a full slot store grows.
    pub open spec fn next_slot(&self) -> usize {
        if self.free_slots().len() > 0 {
            self.free_slots().last()
        } else {
            (self.slots() + self.slots() / 2) as usize
        }
    }

    /// The free slots after one more element has taken its slot: the free
    /// list without its last entry, or the new slots of a grown slot store
    /// without the last of them.
    pub open spec fn free_slots_after_next(&self) -> Seq<usize> {
        if self.free_slots().len() > 0 {
            self.free_slots().drop_last()
        } else {
            Seq::new(self.slots() / 2, |i: int| (self.slots() + i) as usize)
        }
    }

    /// The rank of the node that a removal at rank `k` takes out of the
    /// tree: `k`, or, where the node at rank `k` has two children, the next
    /// rank, from which the element then moves to the node at rank `k`.
    pub open spec fn rank_to_free(&self, k: int) -> int {
        let z = self.handles()[k];
        if self.node(z).left is Some && self.node(z).right is Some {
            k + 1
        } else {
            k
        }
    }

    /// The slot that a removal at rank `k` frees.
    pub open spec fn slot_to_free(&self, k: int) -> usize {
        self.handles()[self.rank_to_free(k)]
    }

    /// The number of slots after room has been made for one more element:
    /// a full slot store grows by one slot and half as many again as it has.
    pub open spec fn slots_with_room(&self) -> nat {
        if self@.len() < self.slots() {
            self.slots()
        } else {
            self.slots() + 1 + self.slots() / 2
        }
    }

    /// Slot `x` holds a node.
    pub closed spec fn live(&self, x: usize) -> bool {
        (x as int) < self.node_list@.len() && self.node_list@[x as int] is Some
    }

    /// Slot `x` exists and is free.
    pub closed spec fn vacant(&self, x: usize) -> bool {
        (x as int) < self.node_list@.len() && self.node_list@[x as int] is None
    }

    /// The node in slot `x`.
    pub closed spec fn node(&self, x: usize) -> Node<T> {
        self.node_list@[x as int]->0
    }

    /// Handle of the root; meaningful while the list is not empty.
    pub closed spec fn root(&self) -> usize {
        self.root_idx
    }

    /// The handles in sequence order.
    pub closed spec fn handles(&self) -> Seq<usize> {
        self.order@
    }

    /// The positions covered by the subtree of `x`.
    pub closed spec fn span_of(&self, x: usize) -> Span {
        self.span@[x]
    }

    /// Size recorded for a child link; an absent child counts zero.
    pub open spec fn size_of(&self, c: Option<usize>) -> int {
        match c {
            Some(y) => self.node(y).size as int,
            None => 0,
        }
    }

    /// The child link leads to a red node.
    pub open spec fn is_red(&self, c: Option<usize>) -> bool {
        c matches Some(y) && self.node(y).color == Color::Red
    }

    // ----- the structural invariant --------------------------------------

    /// The free list names free slots, each once.
    pub(crate) closed spec fn free_ok(&self) -> bool {
        &&& forall|i: int|
            0 <= i < self.free_list@.len() ==> self.vacant(#[trigger] self.free_list@[i])
        &&& forall|i: int, j: int|
            0 <= i < j < self.free_list@.len() ==> self.free_list@[i] != self.free_list@[j]
    }

    /// The handles in sequence order are occupied slots, each at the position
    /// that its span names.
    pub(crate) closed spec fn order_ok(&self) -> bool {
        forall|i: int|
            0 <= i < self.order@.len() ==> self.live(#[trigger] self.order@[i]) && self.span_of(
                self.order@[i],
            ).pos == i
    }

    /// Every slot is either free and on the free list or occupied and in the
    /// sequence.
    pub(crate) closed spec fn arena_ok(&self) -> bool {
        &&& self.order@.len() + self.free_list@.len() == self.node_list@.len()
        &&& self.free_ok()
        &&& self.order_ok()
    }

    /// Node `x` agrees with its neighbours: the left subtree covers the
    /// positions before `x`, the right subtree those after it, children point
    /// back to `x`, and only the root has no parent.
    pub(crate) closed spec fn linked(&self, x: usize) -> bool {
        let n = self.node(x);
        let s = self.span_of(x);
        &&& 0 <= s.lo <= s.pos < s.hi <= self.order@.len()
        &&& self.order@[s.pos] == x
        &&& match n.left {
            None => s.lo == s.pos,
            Some(l) => self.live(l) && self.node(l).parent == Some(x) && self.span_of(l).lo == s.lo
                && self.span_of(l).hi == s.pos,
        }
        &&& match n.right {
            None => s.hi == s.pos + 1,
            Some(r) => self.live(r) && self.node(r).parent == Some(x) && self.span_of(r).lo == s.pos
                + 1 && self.span_of(r).hi == s.hi,
        }
        &&& match n.parent {
            None => x == self.root_idx && s.lo == 0 && s.hi == self.order@.len(),
            Some(p) => self.live(p) && (self.node(p).left == Some(x) || self.node(p).right
                == Some(x)),
        }
    }

    /// The size stored in `x` is the number of positions its subtree covers.
    pub(crate) closed spec fn sized(&self, x: usize) -> bool {
        self.node(x).size == self.span_of(x).hi - self.span_of(x).lo
    }

    /// Every occupied slot is linked.
    pub(crate) closed spec fn all_linked(&self) -> bool {
        forall|x: usize| self.live(x) ==> #[trigger] self.linked(x)
    }

    /// Every occupied slot is sized.
    pub(crate) closed spec fn all_sized(&self) -> bool {
        forall|x: usize| self.live(x) ==> #[trigger] self.sized(x)
    }

    /// The slots form one binary tree whose in-order walk is the sequence,
    /// with a correct subtree size in every node. Colours are not constrained.
    pub closed spec fn structure_ok(&self) -> bool {
        &&& self.arena_ok()
        &&& self.order@.len() > 0 ==> self.live(self.root_idx) && self.node(
            self.root_idx,
        ).parent is None
        &&& self.all_linked()
        &&& self.all_sized()
    }

    // ----- frames -----------------------------------------------------------

    /// `self` is `prev` with the node in the occupied slot `x` replaced by `n`.
    pub(crate) closed spec fn replaced(&self, prev: &TList<T>, x: usize, n: Node<T>) -> bool {
        &&& prev.live(x)
        &&& self.node_list@ == prev.node_list@.update(x as int, Some(n))
        &&& self.free_list@ == prev.free_list@
        &&& self.root_idx == prev.root_idx
        &&& self.order@ == prev.order@
        &&& self.span@ == prev.span@
    }

    /// `self` is `prev` with another root.
    pub(crate) closed spec fn rerooted(&self, prev: &TList<T>, r: usize) -> bool {
        &&& self.node_list@ == prev.node_list@
        &&& self.free_list@ == prev.free_list@
        &&& self.root_idx == r
        &&& self.order@ == prev.order@
        &&& self.span@ == prev.span@
    }

    /// `self` is `prev` with the formerly free slot `x` now holding `n`. The
    /// slot store may have grown; the ghost state is that of `prev`.
    pub(crate) closed spec fn allocated(&self, prev: &TList<T>, x: usize, n: Node<T>) -> bool {
        &&& self.node_list@.len() == if prev.free_list@.len() > 0 {
            prev.node_list@.len()
        } else {
            prev.node_list@.len() + 1 + prev.node_list@.len() / 2
        }
        &&& !prev.live(x) && self.live(x) && self.node(x) == n
        &&& x == prev.next_slot()
        &&& self.free_list@ == prev.free_slots_after_next()
        &&& forall|z: usize|
            #![trigger self.live(z)]
            #![trigger prev.live(z)]
            z != x ==> self.live(z) == prev.live(z)
        &&& forall|z: usize|
            #![trigger self.node(z)]
            #![trigger prev.node(z)]
            prev.live(z) ==> self.node(z) == prev.node(z)
        &&& self.free_ok()
        &&& self.node_list@.len() - self.free_list@.len() == prev.node_list@.len()
            - prev.free_list@.len() + 1
        &&& self.root_idx == prev.root_idx
        &&& self.order@ == prev.order@
        &&& self.span@ == prev.span@
    }

    // ----- the path of an insertion -----------------------------------------------

    /// An element inserted at rank `k` comes to lie below the node `x`: `k`
    /// is a position of the span of `x` or its upper end.
    pub(crate) closed spec fn on_path(&self, k: int, x: usize) -> bool {
        self.span_of(x).lo <= k <= self.span_of(x).hi
    }

    /// The child of `x` below which an element inserted at rank `k` goes.
    pub(crate) closed spec fn path_child(&self, k: int, x: usize) -> Option<usize> {
        if k <= self.span_of(x).pos {
            self.node(x).left
        } else {
            self.node(x).right
        }
    }

    /// `self` is `mid` with one added to the size of every node on the path
    /// of an insertion at rank `k`. `leaf` is a slot that `mid` holds beside
    /// the nodes of the tree.
    pub(crate) closed spec fn sizes_grown(&self, mid: &TList<T>, leaf: usize, k: int) -> bool {
        &&& self.node_list@.len() == mid.node_list@.len()
        &&& self.free_list@ == mid.free_list@
        &&& self.root_idx == mid.root_idx
        &&& self.order@ == mid.order@
        &&& self.span@ == mid.span@
        &&& forall|z: usize|
            #![trigger self.live(z)]
            #![trigger mid.live(z)]
            self.live(z) == mid.live(z)
        &&& forall|z: usize|
            #![trigger self.node(z)]
            #![trigger mid.node(z)]
            mid.live(z) ==> self.node(z) == (Node {
                size: if z != leaf && mid.on_path(k, z) {
                    (mid.node(z).size + 1) as usize
                } else {
                    mid.node(z).size
                },
                ..mid.node(z)
            })
    }

    /// `self` is `prev` with the new node `leaf` hung below `parent` on the
    /// side `side`: every other node keeps its element, its colour and its
    /// links.
    pub(crate) closed spec fn hung(&self, prev: &TList<T>, parent: usize, side: Dir, leaf: usize) -> bool {
        &&& forall|z: usize|
            #![trigger self.live(z)]
            #![trigger prev.live(z)]
            self.live(z) == (prev.live(z) || z == leaf)
        &&& forall|z: usize|
            #![trigger self.node(z)]
            #![trigger prev.node(z)]
            prev.live(z) ==> self.node(z) == (Node {
                left: if z == parent && side == Dir::Left {
                    Some(leaf)
                } else {
                    prev.node(z).left
                },
                right: if z == parent && side == Dir::Right {
                    Some(leaf)
                } else {
                    prev.node(z).right
                },
                size: self.node(z).size,
                ..prev.node(z)
            })
        &&& self.root_idx == prev.root_idx
    }

    // ----- the path of a removal ---------------------------------------------------

    /// Position `p` lies in the span of `x`.
    pub(crate) closed spec fn holds(&self, p: int, x: usize) -> bool {
        self.span_of(x).lo <= p < self.span_of(x).hi
    }

    /// `self` is `prev` with one taken from the size of every node above
    /// the node `y`, which stands at position `p`.
    pub(crate) closed spec fn sizes_shrunk(&self, prev: &TList<T>, y: usize, p: int) -> bool {
        &&& self.node_list@ .len() == prev.node_list@.len()
        &&& self.free_list@ == prev.free_list@
        &&& self.root_idx == prev.root_idx
        &&& self.order@ == prev.order@
        &&& self.span@ == prev.span@
        &&& forall|z: usize|
            #![trigger self.live(z)]
            #![trigger prev.live(z)]
            self.live(z) == prev.live(z)
        &&& forall|z: usize|
            #![trigger self.node(z)]
            #![trigger prev.node(z)]
            prev.live(z) ==> self.node(z) == (Node {
                size: if z != y && prev.holds(p, z) {
                    (prev.node(z).size - 1) as usize
                } else {
                    prev.node(z).size
                },
                ..prev.node(z)
            })
    }

    /// `self` is `prev` with the node `y`, which had the one child link `x`
    /// or none, taken out: whoever pointed to `y` points to `x`, `x` has the
    /// parent of `y`, and every other node keeps its element, its colour and
    /// its links.
    pub(crate) closed spec fn spliced(&self, prev: &TList<T>, y: usize, x: Option<usize>) -> bool {
        &&& forall|z: usize|
            #![trigger self.live(z)]
            #![trigger prev.live(z)]
            self.live(z) == (prev.live(z) && z != y)
        &&& forall|z: usize|
            #![trigger self.node(z)]
            #![trigger prev.node(z)]
            prev.live(z) && z != y ==> self.node(z) == (Node {
                left: if prev.node(z).left == Some(y) {
                    x
                } else {
                    prev.node(z).left
                },
                right: if prev.node(z).right == Some(y) {
                    x
                } else {
                    prev.node(z).right
                },
                parent: if x == Some(z) {
                    prev.node(y).parent
                } else {
                    prev.node(z).parent
                },
                size: self.node(z).size,
                ..prev.node(z)
            })
        &&& self.root_idx == if prev.node(y).parent is None && x is Some {
            x->0
        } else {
            prev.root_idx
        }
    }

    // ----- rotations ----------------------------------------------------------

    /// The node in slot `z` after a left rotation at `h`: the right child `y`
    /// of `h` takes the place of `h`, `h` becomes the left child of `y`, and
    /// the former left subtree of `y` becomes the right subtree of `h`.
    pub open spec fn rotated_left_node(&self, h: usize, z: usize) -> Node<T> {
        let y = self.node(h).right->0;
        let n = self.node(z);
        if z == h {
            Node {
                right: self.node(y).left,
                parent: Some(y),
                size: (1 + self.size_of(n.left) + self.size_of(self.node(y).left)) as usize,
                ..n
            }
        } else if z == y {
            Node { left: Some(h), parent: self.node(h).parent, size: self.node(h).size, ..n }
        } else if self.node(h).parent == Some(z) {
            if n.left == Some(h) {
                Node { left: Some(y), ..n }
            } else {
                Node { right: Some(y), ..n }
            }
        } else if self.node(y).left == Some(z) {
            Node { parent: Some(h), ..n }
        } else {
            n
        }
    }

    /// The node in slot `z` after a right rotation at `h`, the mirror image
    /// of [`Self::rotated_left_node`].
    pub open spec fn rotated_right_node(&self, h: usize, z: usize) -> Node<T> {
        let y = self.node(h).left->0;
        let n = self.node(z);
        if z == h {
            Node {
                left: self.node(y).right,
                parent: Some(y),
                size: (1 + self.size_of(self.node(y).right) + self.size_of(n.right)) as usize,
                ..n
            }
        } else if z == y {
            Node { right: Some(h), parent: self.node(h).parent, size: self.node(h).size, ..n }
        } else if self.node(h).parent == Some(z) {
            if n.left == Some(h) {
                Node { left: Some(y), ..n }
            } else {
                Node { right: Some(y), ..n }
            }
        } else if self.node(y).right == Some(z) {
            Node { parent: Some(h), ..n }
        } else {
            n
        }
    }

    /// `self` is `prev` after a rotation that made `y`, a child of `h`, the
    /// parent of `h`: the same slots are occupied, and `y` is the root if `h`
    /// was.
    pub closed spec fn rotated_frame(&self, prev: &TList<T>, h: usize, y: usize) -> bool {
        &&& self.node_list@.len() == prev.node_list@.len()
        &&& forall|z: usize|
            #![trigger self.live(z)]
            #![trigger prev.live(z)]
            self.live(z) == prev.live(z)
        &&& self.free_list@ == prev.free_list@
        &&& self.order@ == prev.order@
        &&& self.root_idx == if prev.node(h).parent is None {
            y
        } else {
            prev.root_idx
        }
        &&& forall|z: usize|
            #![trigger self.span_of(z)]
            #![trigger prev.span_of(z)]
            z != h && z != y ==> self.span_of(z) == prev.span_of(z)
    }

    /// What a rotation of `h` down to the side `d` does to colours and child
    /// links, said without regard to the side: `y`, the child of `h` on the
    /// other side, hands its child on the side `d` over to `h` and takes `h`
    /// as its child there; whoever pointed to `h` points to `y`.
    #[verifier::opaque]
    pub(crate) closed spec fn turned(&self, prev: &TList<T>, h: usize, d: Dir) -> bool {
        let y = kid(prev.node(h), flip(d))->0;
        let ph = prev.node(h);
        let py = prev.node(y);
        &&& self.node(h).color == ph.color
        &&& kid(self.node(h), d) == kid(ph, d)
        &&& kid(self.node(h), flip(d)) == kid(py, d)
        &&& self.node(h).parent == Some(y)
        &&& self.node(y).color == py.color
        &&& kid(self.node(y), d) == Some(h)
        &&& kid(self.node(y), flip(d)) == kid(py, flip(d))
        &&& self.node(y).parent == ph.parent
        &&& forall|x: usize|
            #![trigger self.node(x)]
            #![trigger prev.node(x)]
            prev.live(x) && x != h && x != y ==> self.node(x).color == prev.node(x).color
                && self.node(x).left == redirected(prev.node(x).left, h, y) && self.node(x).right
                == redirected(prev.node(x).right, h, y)
    }

    // ----- colours --------------------------------------------------------

    /// A red node `x` has no red child.
    pub open spec fn no_red_red(&self, x: usize) -> bool {
        self.node(x).color == Color::Red ==> !self.is_red(self.node(x).left) && !self.is_red(
            self.node(x).right,
        )
    }

    /// No red node has a red child.
    pub open spec fn all_no_red_red(&self) -> bool {
        forall|x: usize| self.live(x) ==> #[trigger] self.no_red_red(x)
    }

    /// The root, if there is one, is black.
    pub open spec fn root_black(&self) -> bool {
        self@.len() > 0 ==> self.node(self.root()).color == Color::Black
    }

    /// The root is black and no red node has a red child.
    pub open spec fn colors_ok(&self) -> bool {
        self.root_black() && self.all_no_red_red()
    }

    /// The invariant of the list between calls of its public operations.
    pub open spec fn wf(&self) -> bool {
        self.structure_ok() && self.colors_ok()
    }

    /// A red node `x` has no red child other than `z`.
    pub(crate) closed spec fn no_red_red_but(&self, x: usize, z: usize) -> bool {
        self.node(x).color == Color::Red ==> (!self.is_red(self.node(x).left) || self.node(x).left
            == Some(z)) && (!self.is_red(self.node(x).right) || self.node(x).right == Some(z))
    }

    /// The state of the tree while an insertion is being repaired: the node
    /// `z` is red, it is the only red node that may have a red parent, and
    /// the root is black unless it is `z`.
    pub(crate) closed spec fn red_violation_at(&self, z: usize) -> bool {
        &&& self.structure_ok()
        &&& self.live(z)
        &&& self.node(z).color == Color::Red
        &&& self.node(self.root()).color == Color::Black || self.root() == z
        &&& forall|x: usize| self.live(x) ==> #[trigger] self.no_red_red_but(x, z)
    }

    /// A red node `v` has no red child, unless `v` or that child is the
    /// link `x`.
    pub(crate) closed spec fn no_red_red_about(&self, v: usize, x: Option<usize>) -> bool {
        self.node(v).color == Color::Red ==> Some(v) == x || ((!self.is_red(self.node(v).left)
            || self.node(v).left == x) && (!self.is_red(self.node(v).right) || self.node(v).right
            == x))
    }

    /// The state of the tree while a removal is being repaired: below the
    /// node `xp` the link `x`, which may be absent, leads to a subtree that
    /// has lost a black node. A red node next to a red node is `x` or a
    /// neighbour of `x`, and the root is black unless it is `x`.
    pub(crate) closed spec fn black_missing_at(&self, x: Option<usize>, xp: Option<usize>) -> bool {
        &&& self.structure_ok()
        &&& x matches Some(c) ==> self.live(c) && self.node(c).parent == xp
        &&& match xp {
            None => self@.len() == 0 || x == Some(self.root()),
            Some(q) => self.live(q) && (self.node(q).left == x || self.node(q).right == x),
        }
        &&& self@.len() > 0 ==> self.node(self.root()).color == Color::Black || x == Some(
            self.root(),
        )
        &&& forall|v: usize| self.live(v) ==> #[trigger] self.no_red_red_about(v, x)
    }

    // ----- black heights ----------------------------------------------------

    /// At `x` the black heights `bh` of both children agree, and that of `x`
    /// is theirs plus one if `x` is black.
    pub open spec fn balanced_at(&self, bh: Map<usize, nat>, x: usize) -> bool {
        let n = self.node(x);
        &&& black_height_of(bh, n.left) == black_height_of(bh, n.right)
        &&& bh[x] == black_height_of(bh, n.left) + black_weight(n.color)
    }

    /// `bh` assigns to every node the number of black nodes on each path from
    /// it down to an absent child.
    pub open spec fn balanced_by(&self, bh: Map<usize, nat>) -> bool {
        forall|x: usize| self.live(x) ==> #[trigger] self.balanced_at(bh, x)
    }

    /// Below `q` the link `x` on the side `d` leads to a subtree that is one
    /// black node short of the subtree on the other side, on which the black
    /// height of `q` is counted.
    pub(crate) closed spec fn short_on(
        &self,
        bh: Map<usize, nat>,
        q: usize,
        x: Option<usize>,
        d: Dir,
    ) -> bool {
        &&& kid(self.node(q), d) == x
        &&& black_height_of(bh, x) + 1 == black_height_of(bh, kid(self.node(q), flip(d)))
        &&& bh[q] == black_height_of(bh, kid(self.node(q), flip(d))) + black_weight(
            self.node(q).color,
        )
    }

    /// `bh` are black heights for every node but `xp`, below which the link
    /// `x` leads to a subtree that is one black node short.
    pub(crate) closed spec fn deficit_by(
        &self,
        bh: Map<usize, nat>,
        x: Option<usize>,
        xp: Option<usize>,
    ) -> bool {
        &&& forall|v: usize| self.live(v) && Some(v) != xp ==> #[trigger] self.balanced_at(bh, v)
        &&& xp matches Some(q) ==> self.short_on(bh, q, x, Dir::Left) || self.short_on(
            bh,
            q,
            x,
            Dir::Right,
        )
    }

    /// All paths from a node down to an absent child pass through the same
    /// number of black nodes.
    pub open spec fn black_balanced(&self) -> bool {
        exists|bh: Map<usize, nat>| self.balanced_by(bh)
    }
}

} // verus!
