//! Building a balanced tree in one pass from a sequence that is there as a
//! whole.
//!
//! The element in the middle of a range becomes the root of the subtree for
//! that range, and the two halves are left on a work list. Element `i` of the
//! input is stored in slot `i`.

use vstd::prelude::*;
use crate::{black_height_of, black_weight, Color, Node, Span, TList};

verus! {

/// Room for work items that a build sets aside at its start.
pub const DEFAULT_STACK_DEPTH: usize = 64;

/// A range of the input that is still to be turned into a subtree.
#[derive(Debug, Clone, Copy, PartialEq)]
pub struct NodeLoc {
    /// Colour for the root of the subtree.
    pub color: Color,
    /// Slot of the parent of that root.
    pub parent: Option<usize>,
    /// First position of the range.
    pub left_edge: usize,
    /// Position behind the last one of the range.
    pub right_edge: usize,
    /// Position of the element that becomes the root of the subtree.
    pub node_idx: usize,
}

/// Red for black and black for red.
pub open spec fn other_color(c: Color) -> Color {
    match c {
        Color::Black => Color::Red,
        Color::Red => Color::Black,
    }
}

/// The black height of a tree of `size` nodes that is built with the colour
/// `color` at its root, if all its paths down to an absent child pass
/// through the same number of black nodes. The halves of a range differ by
/// at most one node and have the other colour at their roots.
pub open spec fn built_black_height(size: nat, color: Color) -> Option<nat>
    decreases size,
{
    if size == 0 {
        Some(0)
    } else {
        let big = built_black_height(size / 2, other_color(color));
        let small = built_black_height((size - 1 - size / 2) as nat, other_color(color));
        if big is Some && small is Some && big->0 == small->0 {
            Some(big->0 + black_weight(color))
        } else {
            None
        }
    }
}

/// The work item for the positions before `loc.node_idx`.
pub open spec fn left_child_loc(loc: NodeLoc) -> NodeLoc {
    NodeLoc {
        color: other_color(loc.color),
        parent: Some(loc.node_idx),
        left_edge: loc.left_edge,
        right_edge: loc.node_idx,
        node_idx: (loc.left_edge + (loc.node_idx - loc.left_edge) / 2) as usize,
    }
}

/// The work item for the positions behind `loc.node_idx`.
pub open spec fn right_child_loc(loc: NodeLoc) -> NodeLoc {
    NodeLoc {
        color: other_color(loc.color),
        parent: Some(loc.node_idx),
        left_edge: (loc.node_idx + 1) as usize,
        right_edge: loc.right_edge,
        node_idx: (loc.node_idx + (loc.right_edge - loc.node_idx) / 2) as usize,
    }
}

fn flip_color(c: Color) -> (r: Color)
    ensures
        r == other_color(c),
{
    match c {
        Color::Black => Color::Red,
        Color::Red => Color::Black,
    }
}

/// Position `i` lies in the range of a work item.
spec fn covered(stack: Seq<NodeLoc>, i: usize) -> bool {
    exists|j: int| 0 <= j < stack.len() && (#[trigger] stack[j]).left_edge <= i < stack[j].right_edge
}

/// A work item stands for the child `c` of `x` with the range from `lo` to `hi`.
spec fn pending(stack: Seq<NodeLoc>, c: usize, x: usize, lo: int, hi: int) -> bool {
    exists|j: int|
        0 <= j < stack.len() && (#[trigger] stack[j]).node_idx == c && stack[j].parent == Some(x)
            && stack[j].left_edge == lo && stack[j].right_edge == hi
}

/// The ranges of the work items lie one behind the other.
spec fn ascending(stack: Seq<NodeLoc>) -> bool {
    forall|i: int, j: int|
        0 <= i < j < stack.len() ==> (#[trigger] stack[i]).right_edge <= (#[trigger] stack[j]).left_edge
}

impl<T> TList<T> {
    /// Where there are positions before `loc_node.node_idx` in its range,
    /// leaves the work item for them on `build_stack` and returns the slot of
    /// the left child together with the number of those positions.
    pub fn prepare_left_child(build_stack: &mut Vec<NodeLoc>, loc_node: &NodeLoc) -> (r: Option<
        (usize, usize),
    >)
        ensures
            loc_node.left_edge >= loc_node.node_idx ==> r is None && final(build_stack)@ == old(
                build_stack,
            )@,
            loc_node.left_edge < loc_node.node_idx ==> r == Some(
                (left_child_loc(*loc_node).node_idx, (loc_node.node_idx - loc_node.left_edge) as usize),
            ) && final(build_stack)@ == old(build_stack)@.push(left_child_loc(*loc_node)),
    {
        if loc_node.left_edge >= loc_node.node_idx {
            return None;
        }
        let width: usize = loc_node.node_idx - loc_node.left_edge;
        assert(width >> 1 == width / 2) by (bit_vector);
        let half = width >> 1;
        let new_left_loc = loc_node.left_edge + half;
        let new_loc_node = NodeLoc {
            color: flip_color(loc_node.color),
            parent: Some(loc_node.node_idx),
            left_edge: loc_node.left_edge,
            right_edge: loc_node.node_idx,
            node_idx: new_left_loc,
        };
        build_stack.push(new_loc_node);
        Some((new_left_loc, loc_node.node_idx - loc_node.left_edge))
    }

    /// Where there are positions behind `loc_node.node_idx` in its range,
    /// leaves the work item for them on `build_stack` and returns the slot of
    /// the right child together with the number of those positions.
    pub fn prepare_right_child(build_stack: &mut Vec<NodeLoc>, loc_node: &NodeLoc) -> (r: Option<
        (usize, usize),
    >)
        ensures
            loc_node.right_edge <= loc_node.node_idx + 1 ==> r is None && final(build_stack)@
                == old(build_stack)@,
            loc_node.right_edge > loc_node.node_idx + 1 ==> r == Some(
                (
                    right_child_loc(*loc_node).node_idx,
                    (loc_node.right_edge - loc_node.node_idx - 1) as usize,
                ),
            ) && final(build_stack)@ == old(build_stack)@.push(right_child_loc(*loc_node)),
    {
        if loc_node.right_edge <= loc_node.node_idx || loc_node.right_edge - loc_node.node_idx <= 1 {
            return None;
        }
        let new_left_edge = loc_node.node_idx + 1;
        let width: usize = loc_node.right_edge - loc_node.node_idx;
        assert(width >> 1 == width / 2) by (bit_vector);
        let half = width >> 1;
        let new_right_loc = loc_node.node_idx + half;
        let new_loc = NodeLoc {
            color: flip_color(loc_node.color),
            parent: Some(loc_node.node_idx),
            left_edge: new_left_edge,
            right_edge: loc_node.right_edge,
            node_idx: new_right_loc,
        };
        build_stack.push(new_loc);
        Some((new_right_loc, loc_node.right_edge - loc_node.node_idx - 1))
    }

    /// The work item `e` names a range of free slots below a node that is
    /// there already, or the whole input.
    spec fn item_ok(&self, e: NodeLoc) -> bool {
        &&& e.left_edge <= e.node_idx < e.right_edge <= self.node_list@.len()
        &&& forall|i: int| e.left_edge <= i < e.right_edge ==> #[trigger] self.node_list@[i] is None
        &&& match e.parent {
            None => e.left_edge == 0 && e.right_edge == self.node_list@.len() && self.root_idx
                == e.node_idx && e.color == Color::Black,
            Some(p) => self.live(p) && self.node(p).color != e.color && ((self.node(p).left == Some(
                e.node_idx,
            ) && self.span_of(p).lo == e.left_edge && self.span_of(p).pos == e.right_edge) || (
            self.node(p).right == Some(e.node_idx) && self.span_of(p).pos + 1 == e.left_edge
                && self.span_of(p).hi == e.right_edge)),
        }
    }

    /// The root is there and has no parent, or its work item is the only one.
    spec fn root_settled(&self, stack: Seq<NodeLoc>) -> bool {
        if self.live(self.root_idx) {
            self.node(self.root_idx).parent is None
        } else {
            stack.len() == 1 && stack[0].parent is None && stack[0].node_idx == self.root_idx
        }
    }

    /// The node in slot `x` stands at position `x`, its children are the
    /// middles of the two halves of its span, the left one rounded down and
    /// the right one rounded up, and it has the other colour than its parent.
    pub open spec fn built_at(&self, x: usize) -> bool {
        let n = self.node(x);
        let s = self.span_of(x);
        &&& s.pos == x
        &&& n.left == if s.lo < x {
            Some((s.lo + (x - s.lo) / 2) as usize)
        } else {
            None
        }
        &&& n.right == if x + 1 < s.hi {
            Some((x + (s.hi - x) / 2) as usize)
        } else {
            None
        }
        &&& n.parent matches Some(p) ==> self.node(p).color != n.color
    }

    /// The node `x` is linked as far as the tree is built: a child that is
    /// not there yet has its work item.
    spec fn half_linked(&self, stack: Seq<NodeLoc>, x: usize) -> bool {
        let n = self.node(x);
        let s = self.span_of(x);
        &&& 0 <= s.lo <= s.pos < s.hi <= self.node_list@.len()
        &&& self.built_at(x)
        &&& n.size == s.hi - s.lo
        &&& match n.left {
            None => s.lo == s.pos,
            Some(l) => (self.live(l) && self.node(l).parent == Some(x) && self.span_of(l).lo == s.lo
                && self.span_of(l).hi == s.pos) || pending(stack, l, x, s.lo, s.pos),
        }
        &&& match n.right {
            None => s.hi == s.pos + 1,
            Some(r) => (self.live(r) && self.node(r).parent == Some(x) && self.span_of(r).lo
                == s.pos + 1 && self.span_of(r).hi == s.hi) || pending(
                stack,
                r,
                x,
                s.pos + 1,
                s.hi,
            ),
        }
        &&& match n.parent {
            None => x == self.root_idx && s.lo == 0 && s.hi == self.node_list@.len() && n.color
                == Color::Black,
            Some(p) => self.live(p) && (self.node(p).left == Some(x) || self.node(p).right == Some(
                x,
            )) && self.node(p).color != n.color,
        }
    }

    /// What holds of the tree and the work list between two steps of a build.
    spec fn building(&self, stack: Seq<NodeLoc>) -> bool {
        &&& self.node_list@.len() <= usize::MAX
        &&& ascending(stack)
        &&& forall|j: int| 0 <= j < stack.len() ==> self.item_ok(#[trigger] stack[j])
        &&& forall|i: usize| i < self.node_list@.len() ==> self.live(i) || #[trigger] covered(stack, i)
        &&& forall|x: usize| self.live(x) ==> #[trigger] self.half_linked(stack, x)
        &&& self.root_settled(stack)
    }

    /// `self` comes from `before` by one step of a build: the work item `e`
    /// has left the work list `stack0`, its node is there, and the work
    /// items for the children of that node have made `stack2`.
    spec fn step_from(
        &self,
        before: &TList<T>,
        stack0: Seq<NodeLoc>,
        stack2: Seq<NodeLoc>,
        e: NodeLoc,
    ) -> bool {
        &&& stack0.len() > 0
        &&& e == stack0.last()
        &&& stack2 == ({
            let s1 = stack0.drop_last();
            let s2 = if e.left_edge < e.node_idx {
                s1.push(left_child_loc(e))
            } else {
                s1
            };
            if e.right_edge > e.node_idx + 1 {
                s2.push(right_child_loc(e))
            } else {
                s2
            }
        })
        &&& self.node_list@.len() == before.node_list@.len()
        &&& self.root_idx == before.root_idx
        &&& self.live(e.node_idx)
        &&& forall|x: usize|
            #![trigger self.live(x)]
            #![trigger before.live(x)]
            x != e.node_idx ==> self.live(x) == before.live(x)
        &&& forall|x: usize|
            #![trigger self.node(x)]
            #![trigger before.node(x)]
            before.live(x) ==> self.node(x) == before.node(x)
        &&& forall|x: usize|
            #![trigger self.span_of(x)]
            #![trigger before.span_of(x)]
            x != e.node_idx ==> self.span_of(x) == before.span_of(x)
        &&& self.span_of(e.node_idx) == (Span {
            lo: e.left_edge as int,
            pos: e.node_idx as int,
            hi: e.right_edge as int,
        })
        &&& self.node(e.node_idx).color == e.color
        &&& self.node(e.node_idx).parent == e.parent
        &&& self.node(e.node_idx).size == e.right_edge - e.left_edge
        &&& self.node(e.node_idx).left == if e.left_edge < e.node_idx {
            Some(left_child_loc(e).node_idx)
        } else {
            None
        }
        &&& self.node(e.node_idx).right == if e.right_edge > e.node_idx + 1 {
            Some(right_child_loc(e).node_idx)
        } else {
            None
        }
    }

    /// A list with the elements of `data` in the same order. Slot `i` holds
    /// element `i`; the root is the element in the middle, and so on down
    /// the two halves, black and red level by level.
    pub fn from_data<U>(data: &[U]) -> (list: TList<U>) where U: Sized + Clone
        ensures
            list.wf(),
            list@.len() == data@.len(),
            forall|i: int| 0 <= i < data@.len() ==> cloned(data@[i], #[trigger] list@[i]),
            list.slots() == data@.len(),
            list.handles() == Seq::new(data@.len(), |i: int| i as usize),
            list.free_slots() == Seq::<usize>::empty(),
            data@.len() > 0 ==> list.root() == data@.len() / 2,
            forall|x: usize| list.live(x) ==> #[trigger] list.built_at(x),
            list.black_balanced() <==> built_black_height(data@.len(), Color::Black) is Some,
    {
        let mut index_tree: TList<U> = TList::with_capacity(data.len());
        let ghost n = data@.len();
        proof {
            assert forall|i: int| 0 <= i < n implies #[trigger] index_tree.node_list@[i] is None by {
                assert(!index_tree.live(i as usize));
            }
        }
        index_tree.free_list.clear();
        proof {
            index_tree.order@ = Seq::new(n, |i: int| i as usize);
        }

        if 0 == data.len() {
            proof {
                assert(index_tree@ =~= Seq::<U>::empty());
                assert(index_tree.balanced_by(Map::empty()));
            }
            return index_tree;
        }
        let count = data.len();
        assert(count >> 1 == count / 2) by (bit_vector);
        let root_data_val_loc = count >> 1;

        let mut build_stack: Vec<NodeLoc> = Vec::with_capacity(DEFAULT_STACK_DEPTH);
        build_stack.push(
            NodeLoc {
                color: Color::Black,
                parent: None,
                left_edge: 0,
                right_edge: data.len(),
                node_idx: root_data_val_loc,
            },
        );
        index_tree.root_idx = root_data_val_loc;
        proof {
            assert(index_tree.item_ok(build_stack@[0]));
            assert forall|i: usize| i < n implies index_tree.live(i) || #[trigger] covered(
                build_stack@,
                i,
            ) by {
                assert(build_stack@[0].left_edge <= i < build_stack@[0].right_edge);
            }
        }

        loop
            invariant
                n == data@.len(),
                n > 0,
                index_tree.node_list@.len() == n,
                index_tree.free_list@.len() == 0,
                index_tree.root_idx == n / 2,
                index_tree.order@ == Seq::new(n, |i: int| i as usize),
                index_tree.building(build_stack@),
                forall|x: usize|
                    index_tree.live(x) ==> cloned(data@[x as int], #[trigger] index_tree.node(x).data),
            ensures
                build_stack@.len() == 0,
            decreases
                    (if build_stack@.len() > 0 {
                        build_stack@.last().right_edge as int
                    } else {
                        0
                    }),
                    (if build_stack@.len() > 0 {
                        build_stack@.last().right_edge - build_stack@.last().left_edge
                    } else {
                        0
                    }),
        {
            let ghost before = index_tree;
            let ghost stack0 = build_stack@;
            let node_loc = match build_stack.pop() {
                Some(node_loc) => node_loc,
                None => {
                    break ;
                },
            };
            proof {
                assert(before.item_ok(stack0[stack0.len() - 1]));
                assert(!before.live(node_loc.node_idx));
            }
            let mut node = Node::new_leaf(data[node_loc.node_idx].clone(), node_loc.color);

            if let Some((loc, count)) = Self::prepare_left_child(&mut build_stack, &node_loc) {
                node.left = Some(loc);
                node.size += count;
            }
            if let Some((loc, count)) = Self::prepare_right_child(&mut build_stack, &node_loc) {
                node.right = Some(loc);
                node.size += count;
            }
            node.parent = node_loc.parent;

            index_tree.node_list[node_loc.node_idx] = Some(node);
            proof {
                index_tree.span@ = index_tree.span@.insert(
                    node_loc.node_idx,
                    Span {
                        lo: node_loc.left_edge as int,
                        pos: node_loc.node_idx as int,
                        hi: node_loc.right_edge as int,
                    },
                );
                assert(index_tree.step_from(&before, stack0, build_stack@, node_loc));
                index_tree.lemma_step_items(&before, stack0, build_stack@, node_loc);
                index_tree.lemma_step_covered(&before, stack0, build_stack@, node_loc);
                index_tree.lemma_step_linked(&before, stack0, build_stack@, node_loc);
                assert forall|x: usize| index_tree.live(x) implies cloned(
                    data@[x as int],
                    #[trigger] index_tree.node(x).data,
                ) by {
                    if x != node_loc.node_idx {
                        assert(before.live(x));
                    }
                }
            }
        }
        proof {
            index_tree.lemma_build_done(build_stack@);
            assert forall|i: int| 0 <= i < n implies cloned(data@[i], #[trigger] index_tree@[i]) by {
                assert(index_tree.live(i as usize) || covered(build_stack@, i as usize));
            }
            index_tree.lemma_built_balance();
        }
        index_tree
    }

    /// The number of nodes below a built node is that of a range, and the
    /// numbers below its children are those of the halves of the range.
    proof fn lemma_built_halves(&self, x: usize)
        requires
            self.wf(),
            self@.len() > 0 ==> self.root() == self@.len() / 2,
            forall|y: usize| self.live(y) ==> #[trigger] self.built_at(y),
            self.live(x),
        ensures
            self.node(x).size > 0,
            ({
                let s = self.node(x).size as nat;
                let l = self.size_of(self.node(x).left);
                let r = self.size_of(self.node(x).right);
                (l == s / 2 && r == s - 1 - s / 2) || (r == s / 2 && l == s - 1 - s / 2)
            }),
            self.node(x).left matches Some(c) ==> self.live(c) && self.node(c).color == other_color(
                self.node(x).color,
            ) && self.node(c).size < self.node(x).size,
            self.node(x).right matches Some(c) ==> self.live(c) && self.node(c).color
                == other_color(self.node(x).color) && self.node(c).size < self.node(x).size,
    {
        assert(self.linked(x) && self.sized(x));
        assert(self.built_at(x));
        if let Some(c) = self.node(x).left {
            assert(self.linked(c) && self.sized(c));
            assert(self.built_at(c));
        }
        if let Some(c) = self.node(x).right {
            assert(self.linked(c) && self.sized(c));
            assert(self.built_at(c));
        }
        let s = self.span_of(x);
        assert(self.node_list@.len() == self.node_list.len());
        assert(self.size_of(self.node(x).left) == s.pos - s.lo);
        assert(self.size_of(self.node(x).right) == s.hi - s.pos - 1);
        assert(self.node(x).size == s.hi - s.lo);
        assert(s.pos == x);
        match self.node(x).parent {
            None => {
                assert(x == self.root());
                assert(s.lo == 0 && s.hi == self@.len());
                assert(s.pos - s.lo == (s.hi - s.lo) / 2);
            },
            Some(p) => {
                assert(self.linked(p));
                assert(self.built_at(p));
                let sp = self.span_of(p);
                assert(sp.pos == p);
                if self.node(p).left == Some(x) {
                    assert(s.lo == sp.lo && s.hi == sp.pos);
                    assert(x == sp.lo + (p - sp.lo) / 2);
                    assert(s.pos - s.lo == (s.hi - s.lo) / 2);
                } else {
                    assert(self.node(p).right == Some(x));
                    assert(s.lo == sp.pos + 1 && s.hi == sp.hi);
                    assert(x == p + (sp.hi - p) / 2);
                    assert(s.hi - s.pos - 1 == (s.hi - s.lo) / 2);
                }
            },
        }
    }

    /// Black heights of a built list are those that the sizes and colours
    /// of its nodes give.
    proof fn lemma_built_height_up(&self, bh: Map<usize, nat>, x: usize)
        requires
            self.wf(),
            self@.len() > 0 ==> self.root() == self@.len() / 2,
            forall|y: usize| self.live(y) ==> #[trigger] self.built_at(y),
            self.balanced_by(bh),
            self.live(x),
        ensures
            built_black_height(self.node(x).size as nat, self.node(x).color) == Some(bh[x]),
        decreases self.node(x).size,
    {
        self.lemma_built_halves(x);
        assert(self.balanced_at(bh, x));
        let below = other_color(self.node(x).color);
        assert(built_black_height(0, below) == Some(0nat));
        if let Some(c) = self.node(x).left {
            self.lemma_built_height_up(bh, c);
        }
        if let Some(c) = self.node(x).right {
            self.lemma_built_height_up(bh, c);
        }
        assert(built_black_height(self.size_of(self.node(x).left) as nat, below) == Some(
            black_height_of(bh, self.node(x).left),
        ));
        assert(built_black_height(self.size_of(self.node(x).right) as nat, below) == Some(
            black_height_of(bh, self.node(x).right),
        ));
    }

    /// Where the sizes and colours give the root of a built list a black
    /// height, they give one to every node.
    proof fn lemma_built_height_down(&self, x: usize)
        requires
            self.wf(),
            self@.len() > 0 ==> self.root() == self@.len() / 2,
            forall|y: usize| self.live(y) ==> #[trigger] self.built_at(y),
            built_black_height(self@.len(), Color::Black) is Some,
            self.live(x),
        ensures
            built_black_height(self.node(x).size as nat, self.node(x).color) is Some,
        decreases self@.len() - self.node(x).size,
    {
        assert(self.linked(x) && self.sized(x));
        assert(self.linked(self.root()) && self.sized(self.root()));
        match self.node(x).parent {
            None => {},
            Some(p) => {
                self.lemma_built_halves(p);
                assert(self.linked(p) && self.sized(p));
                self.lemma_built_height_down(p);
            },
        }
    }

    /// A built list is black-balanced exactly if its length and the black
    /// colour of its root give it a black height.
    proof fn lemma_built_balance(&self)
        requires
            self.wf(),
            self@.len() > 0 ==> self.root() == self@.len() / 2,
            forall|y: usize| self.live(y) ==> #[trigger] self.built_at(y),
        ensures
            self.black_balanced() <==> built_black_height(self@.len(), Color::Black) is Some,
    {
        if self@.len() == 0 {
            assert forall|x: usize| self.live(x) implies false by {
                assert(self.linked(x));
            }
            assert(self.balanced_by(Map::empty()));
        } else {
            assert(self.linked(self.root()) && self.sized(self.root()));
            if self.black_balanced() {
                let bh = choose|bh: Map<usize, nat>| self.balanced_by(bh);
                self.lemma_built_height_up(bh, self.root());
            }
            if built_black_height(self@.len(), Color::Black) is Some {
                let bh = Map::total(
                    |x: usize| built_black_height(self.node(x).size as nat, self.node(x).color)->0,
                );
                assert forall|x: usize| self.live(x) implies #[trigger] self.balanced_at(bh, x) by {
                    self.lemma_built_height_down(x);
                    self.lemma_built_halves(x);
                    let below = other_color(self.node(x).color);
                    assert(built_black_height(0, below) == Some(0nat));
                    assert(built_black_height(self.size_of(self.node(x).left) as nat, below)
                        == Some(black_height_of(bh, self.node(x).left)));
                    assert(built_black_height(self.size_of(self.node(x).right) as nat, below)
                        == Some(black_height_of(bh, self.node(x).right)));
                }
                assert(self.balanced_by(bh));
            }
        }
    }

    /// After a step the work items are in order, each with its free slots
    /// and its parent, and the next item is smaller than the one just done.
    proof fn lemma_step_items(
        &self,
        before: &TList<T>,
        stack0: Seq<NodeLoc>,
        stack2: Seq<NodeLoc>,
        e: NodeLoc,
    )
        requires
            before.building(stack0),
            self.step_from(before, stack0, stack2, e),
        ensures
            ascending(stack2),
            forall|j: int| 0 <= j < stack2.len() ==> self.item_ok(#[trigger] stack2[j]),
            self.root_settled(stack2),
            stack2.len() > 0 ==> stack2.last().right_edge < e.right_edge || (
            stack2.last().right_edge == e.right_edge && stack2.last().right_edge
                - stack2.last().left_edge < e.right_edge - e.left_edge),
    {
        let top = stack0.len() - 1;
        let s1 = stack0.drop_last();
        let has_left = e.left_edge < e.node_idx;
        let has_right = e.right_edge > e.node_idx + 1;
        assert(before.item_ok(stack0[top]));
        assert(before.node_list@[e.node_idx as int] is None);
        assert(!before.live(e.node_idx));
        assert forall|j: int| 0 <= j < s1.len() implies s1[j] == stack0[j] && stack2[j]
            == stack0[j] by {}
        assert forall|j: int| 0 <= j < stack2.len() implies self.item_ok(#[trigger] stack2[j]) by {
            if j < s1.len() {
                assert(before.item_ok(stack0[j]));
                assert(stack0[j].right_edge <= stack0[top].left_edge);
                assert forall|i: int|
                    stack0[j].left_edge <= i < stack0[j].right_edge implies (
                #[trigger] self.node_list@[i]) is None by {
                    assert(before.node_list@[i] is None);
                    assert(!before.live(i as usize));
                    assert(!self.live(i as usize));
                }
            } else {
                let c = stack2[j];
                assert forall|i: int| c.left_edge <= i < c.right_edge implies (
                #[trigger] self.node_list@[i]) is None by {
                    assert(before.node_list@[i] is None);
                    assert(!before.live(i as usize));
                    assert(!self.live(i as usize));
                }
            }
        }
        assert(ascending(stack2)) by {
            assert forall|i: int, j: int| 0 <= i < j < stack2.len() implies (#[trigger] stack2[i]).right_edge
                <= (#[trigger] stack2[j]).left_edge by {
                if j < s1.len() {
                } else if i < s1.len() {
                    assert(stack0[i].right_edge <= stack0[top].left_edge);
                }
            }
        }
        if stack2.len() > 0 && !has_left && !has_right {
            assert(stack2.last() == stack0[top - 1]);
        }
    }

    /// After a step every slot is occupied or lies in the range of a work
    /// item.
    proof fn lemma_step_covered(
        &self,
        before: &TList<T>,
        stack0: Seq<NodeLoc>,
        stack2: Seq<NodeLoc>,
        e: NodeLoc,
    )
        requires
            before.building(stack0),
            self.step_from(before, stack0, stack2, e),
        ensures
            forall|i: usize|
                i < self.node_list@.len() ==> self.live(i) || #[trigger] covered(stack2, i),
    {
        let top = stack0.len() - 1;
        let s1 = stack0.drop_last();
        assert forall|i: usize| i < self.node_list@.len() implies self.live(i) || #[trigger] covered(
            stack2,
            i,
        ) by {
            if !self.live(i) {
                assert(!before.live(i));
                assert(covered(stack0, i));
                let j = choose|j: int|
                    0 <= j < stack0.len() && (#[trigger] stack0[j]).left_edge <= i
                        < stack0[j].right_edge;
                if j < top {
                    assert(stack2[j] == stack0[j]);
                } else if i < e.node_idx {
                    assert(stack2[s1.len() as int] == left_child_loc(e));
                } else {
                    assert(stack2[stack2.len() - 1] == right_child_loc(e));
                }
            }
        }
    }

    /// After a step every node is linked as far as the tree is built.
    #[verifier::rlimit(40)]
    proof fn lemma_step_linked(
        &self,
        before: &TList<T>,
        stack0: Seq<NodeLoc>,
        stack2: Seq<NodeLoc>,
        e: NodeLoc,
    )
        requires
            before.building(stack0),
            self.step_from(before, stack0, stack2, e),
        ensures
            forall|x: usize| self.live(x) ==> #[trigger] self.half_linked(stack2, x),
    {
        let top = stack0.len() - 1;
        let s1 = stack0.drop_last();
        let has_left = e.left_edge < e.node_idx;
        let has_right = e.right_edge > e.node_idx + 1;
        assert(before.item_ok(stack0[top]));
        assert(!before.live(e.node_idx));
        assert forall|x: usize| self.live(x) implies #[trigger] self.half_linked(stack2, x) by {
            if x == e.node_idx {
                if has_left {
                    assert(stack2[s1.len() as int] == left_child_loc(e));
                }
                if has_right {
                    assert(stack2[stack2.len() - 1] == right_child_loc(e));
                }
                if let Some(p) = e.parent {
                    assert(before.live(p));
                }
            } else {
                assert(before.live(x));
                assert(before.half_linked(stack0, x));
                let n = before.node(x);
                let s = before.span_of(x);
                if let Some(l) = n.left {
                    if pending(stack0, l, x, s.lo, s.pos) {
                        let j = choose|j: int|
                            0 <= j < stack0.len() && (#[trigger] stack0[j]).node_idx == l
                                && stack0[j].parent == Some(x) && stack0[j].left_edge == s.lo
                                && stack0[j].right_edge == s.pos;
                        if j < top {
                            assert(stack2[j] == stack0[j]);
                        }
                    } else {
                        assert(before.live(l));
                    }
                }
                if let Some(r) = n.right {
                    if pending(stack0, r, x, s.pos + 1, s.hi) {
                        let j = choose|j: int|
                            0 <= j < stack0.len() && (#[trigger] stack0[j]).node_idx == r
                                && stack0[j].parent == Some(x) && stack0[j].left_edge == s.pos + 1
                                && stack0[j].right_edge == s.hi;
                        if j < top {
                            assert(stack2[j] == stack0[j]);
                        }
                    } else {
                        assert(before.live(r));
                    }
                }
                if let Some(p) = n.parent {
                    assert(before.live(p));
                }
            }
        }
    }

    /// When no work is left, the tree is built.
    proof fn lemma_build_done(&self, stack: Seq<NodeLoc>)
        requires
            stack.len() == 0,
            self.node_list@.len() > 0,
            self.free_list@.len() == 0,
            self.order@ == Seq::new(self.node_list@.len(), |i: int| i as usize),
            self.building(stack),
        ensures
            self.wf(),
            self@.len() == self.node_list@.len(),
            forall|i: int| 0 <= i < self@.len() ==> #[trigger] self@[i] == self.node(i as usize).data,
            forall|x: usize| self.live(x) ==> #[trigger] self.built_at(x),
    {
        let n = self.node_list@.len();
        assert forall|x: usize| x < n implies #[trigger] self.live(x) by {
            assert(self.live(x) || covered(stack, x));
        }
        assert forall|x: usize| self.live(x) implies #[trigger] self.linked(x) by {
            assert(self.half_linked(stack, x));
        }
        assert forall|x: usize| self.live(x) implies #[trigger] self.sized(x) by {
            assert(self.half_linked(stack, x));
        }
        assert forall|i: int| 0 <= i < self.order@.len() implies self.live(
            #[trigger] self.order@[i],
        ) && self.span_of(self.order@[i]).pos == i by {
            assert(self.live(i as usize));
            assert(self.half_linked(stack, i as usize));
        }
        assert forall|x: usize| self.live(x) implies #[trigger] self.no_red_red(x) by {
            assert(self.half_linked(stack, x));
            if let Some(l) = self.node(x).left {
                assert(self.half_linked(stack, l));
            }
            if let Some(r) = self.node(x).right {
                assert(self.half_linked(stack, r));
            }
        }
        assert(self.half_linked(stack, self.root_idx));
        assert(self@.len() == n);
        assert forall|x: usize| self.live(x) implies #[trigger] self.built_at(x) by {
            assert(self.half_linked(stack, x));
        }
    }
}

} // verus!
