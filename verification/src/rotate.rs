//! The two rotations. A rotation keeps the sequence and every colour; it
//! relinks two nodes and their neighbours and then recomputes the two sizes.

use vstd::prelude::*;
use crate::{flip, kid, redirected, Dir, Node, Span, TList};

verus! {

impl<T> TList<T> {
    /// The links of a left rotation at `h_idx`, with every size left as it is.
    fn relink_left(&mut self, h_idx: usize) -> (y_idx: usize)
        requires
            old(self).structure_ok(),
            old(self).live(h_idx),
            old(self).node(h_idx).right is Some,
        ensures
            y_idx == old(self).node(h_idx).right->0,
            final(self).rotated_frame(old(self), h_idx, y_idx),
            final(self).span_of(h_idx) == old(self).span_of(h_idx),
            final(self).span_of(y_idx) == old(self).span_of(y_idx),
            forall|z: usize|
                old(self).live(z) ==> #[trigger] final(self).node(z) == (Node {
                    size: old(self).node(z).size,
                    ..old(self).rotated_left_node(h_idx, z)
                }),
    {
        let y_idx = match self.get_child_idx(h_idx, Dir::Right) {
            Some(y_idx) => y_idx,
            None => {
                return h_idx;
            },
        };
        proof {
            assert(self.linked(h_idx));
            assert(self.linked(y_idx));
        }
        let y_left = self.get_child_idx(y_idx, Dir::Left);
        let h_parent = self.get_parent_idx(h_idx);
        let ghost s0 = *self;
        proof {
            if let Some(n_idx) = y_left {
                assert(self.linked(n_idx));
            }
            if let Some(p) = h_parent {
                assert(self.linked(p));
            }
        }
        if let Some(n_idx) = y_left {
            self.set_parent(n_idx, Some(h_idx));
        }
        self.replace_child(h_parent, h_idx, y_idx);
        self.set_right(h_idx, y_left);
        self.set_parent(h_idx, Some(y_idx));
        self.set_parent(y_idx, h_parent);
        self.set_left(y_idx, Some(h_idx));
        y_idx
    }

    /// Rotates the node in slot `h_idx` down to the left: its right child
    /// takes its place.
    #[verifier::rlimit(40)]
    pub fn left_rotate(&mut self, h_idx: usize)
        requires
            old(self).structure_ok(),
            old(self).live(h_idx),
            old(self).node(h_idx).right is Some,
        ensures
            final(self).structure_ok(),
            final(self)@ == old(self)@,
            final(self).handles() == old(self).handles(),
            final(self).slots() == old(self).slots(),
            final(self).free_slots() == old(self).free_slots(),
            final(self).rotated_frame(old(self), h_idx, old(self).node(h_idx).right->0),
            forall|z: usize| #[trigger] final(self).live(z) == old(self).live(z),
            final(self).root() == if old(self).node(h_idx).parent is None {
                old(self).node(h_idx).right->0
            } else {
                old(self).root()
            },
            forall|z: usize|
                old(self).live(z) ==> #[trigger] final(self).node(z) == old(self).rotated_left_node(
                    h_idx,
                    z,
                ),
    {
        let ghost s0 = *self;
        let y_idx = self.relink_left(h_idx);
        let ghost s1 = *self;
        let ghost sh = s0.span_of(h_idx);
        let ghost sy = s0.span_of(y_idx);
        proof {
            assert(s0.linked(h_idx) && s0.sized(h_idx));
            assert(s0.linked(y_idx) && s0.sized(y_idx));
            assert(s1.node(h_idx) == (Node {
                size: s0.node(h_idx).size,
                ..s0.rotated_left_node(h_idx, h_idx)
            }));
            assert(s1.node(y_idx) == (Node {
                size: s0.node(y_idx).size,
                ..s0.rotated_left_node(h_idx, y_idx)
            }));
            if let Some(c) = s0.node(h_idx).left {
                assert(s0.linked(c) && s0.sized(c));
                assert(s1.node(c).size == s0.node(c).size);
            }
            if let Some(c) = s0.node(y_idx).left {
                assert(s0.linked(c) && s0.sized(c));
                assert(s1.node(c).size == s0.node(c).size);
            }
            if let Some(c) = s0.node(y_idx).right {
                assert(s0.linked(c) && s0.sized(c));
                assert(s1.node(c).size == s0.node(c).size);
            }
        }
        // The sizes are read through the new links.
        assert(s1.live(h_idx) && s1.live(y_idx));
        self.refresh_size(h_idx);
        assert(self.node(h_idx).size == sy.pos - sh.lo);
        assert(self.live(y_idx));
        self.refresh_size(y_idx);
        proof {
            assert forall|z: usize| #[trigger] self.live(z) == s0.live(z) by {
                assert(s1.live(z) == s0.live(z));
            }
            self.span@ = self.span@.insert(h_idx, Span { lo: sh.lo, pos: sh.pos, hi: sy.pos }).insert(
                y_idx,
                Span { lo: sh.lo, pos: sy.pos, hi: sh.hi },
            );
            assert forall|z: usize| s0.live(z) implies #[trigger] self.node(z)
                == s0.rotated_left_node(h_idx, z) by {
                assert(s1.node(z) == (Node {
                    size: s0.node(z).size,
                    ..s0.rotated_left_node(h_idx, z)
                }));
            }
            s0.lemma_rotated_left(self, h_idx);
        }
    }

    /// The result of a left rotation is a tree over the same sequence.
    #[verifier::rlimit(40)]
    proof fn lemma_rotated_left(&self, post: &TList<T>, h: usize)
        requires
            self.structure_ok(),
            self.live(h),
            self.node(h).right is Some,
            post.rotated_frame(self, h, self.node(h).right->0),
            forall|z: usize|
                self.live(z) ==> #[trigger] post.node(z) == self.rotated_left_node(h, z),
            ({
                let y = self.node(h).right->0;
                &&& post.span_of(h) == (Span {
                    lo: self.span_of(h).lo,
                    pos: self.span_of(h).pos,
                    hi: self.span_of(y).pos,
                })
                &&& post.span_of(y) == (Span {
                    lo: self.span_of(h).lo,
                    pos: self.span_of(y).pos,
                    hi: self.span_of(h).hi,
                })
            }),
        ensures
            post.structure_ok(),
            post@ == self@,
    {
        let y = self.node(h).right->0;
        assert(self.linked(h) && self.sized(h));
        assert(self.linked(y) && self.sized(y));
        assert forall|z: usize| post.live(z) implies #[trigger] post.linked(z) by {
            assert(self.linked(z));
            if let Some(c) = self.node(z).left {
                assert(self.linked(c));
            }
            if let Some(c) = self.node(z).right {
                assert(self.linked(c));
            }
            if let Some(p) = self.node(z).parent {
                assert(self.linked(p));
            }
        }
        assert forall|z: usize| post.live(z) implies #[trigger] post.sized(z) by {
            assert(self.sized(z));
            assert(self.linked(z));
            if let Some(c) = self.node(z).left {
                assert(self.sized(c));
            }
            if let Some(y) = self.node(z).right {
                assert(self.sized(y));
                assert(self.linked(y));
                if let Some(c) = self.node(y).left {
                    assert(self.sized(c));
                }
            }
        }
        assert(post@ =~= self@);
        assert forall|i: int| 0 <= i < post.free_list@.len() implies post.vacant(
            #[trigger] post.free_list@[i],
        ) by {
            assert(self.vacant(self.free_list@[i]));
            assert(!post.live(post.free_list@[i]));
        }
        assert forall|i: int| 0 <= i < post.order@.len() implies post.live(
            #[trigger] post.order@[i],
        ) && post.span_of(post.order@[i]).pos == i by {
            assert(self.live(self.order@[i]));
        }
        if self.order@.len() > 0 {
            assert(self.linked(self.root_idx));
        }
    }

    /// The links of a right rotation at `h_idx`, with every size left as it is.
    fn relink_right(&mut self, h_idx: usize) -> (y_idx: usize)
        requires
            old(self).structure_ok(),
            old(self).live(h_idx),
            old(self).node(h_idx).left is Some,
        ensures
            y_idx == old(self).node(h_idx).left->0,
            final(self).rotated_frame(old(self), h_idx, y_idx),
            final(self).span_of(h_idx) == old(self).span_of(h_idx),
            final(self).span_of(y_idx) == old(self).span_of(y_idx),
            forall|z: usize|
                old(self).live(z) ==> #[trigger] final(self).node(z) == (Node {
                    size: old(self).node(z).size,
                    ..old(self).rotated_right_node(h_idx, z)
                }),
    {
        let y_idx = match self.get_child_idx(h_idx, Dir::Left) {
            Some(y_idx) => y_idx,
            None => {
                return h_idx;
            },
        };
        proof {
            assert(self.linked(h_idx));
            assert(self.linked(y_idx));
        }
        let y_right = self.get_child_idx(y_idx, Dir::Right);
        let h_parent = self.get_parent_idx(h_idx);
        let ghost s0 = *self;
        proof {
            if let Some(n_idx) = y_right {
                assert(self.linked(n_idx));
            }
            if let Some(p) = h_parent {
                assert(self.linked(p));
            }
        }
        if let Some(n_idx) = y_right {
            self.set_parent(n_idx, Some(h_idx));
        }
        self.replace_child(h_parent, h_idx, y_idx);
        self.set_left(h_idx, y_right);
        self.set_parent(h_idx, Some(y_idx));
        self.set_parent(y_idx, h_parent);
        self.set_right(y_idx, Some(h_idx));
        y_idx
    }

    /// Rotates the node in slot `h_idx` down to the right: its left child
    /// takes its place.
    #[verifier::rlimit(40)]
    pub fn right_rotate(&mut self, h_idx: usize)
        requires
            old(self).structure_ok(),
            old(self).live(h_idx),
            old(self).node(h_idx).left is Some,
        ensures
            final(self).structure_ok(),
            final(self)@ == old(self)@,
            final(self).handles() == old(self).handles(),
            final(self).slots() == old(self).slots(),
            final(self).free_slots() == old(self).free_slots(),
            final(self).rotated_frame(old(self), h_idx, old(self).node(h_idx).left->0),
            forall|z: usize| #[trigger] final(self).live(z) == old(self).live(z),
            final(self).root() == if old(self).node(h_idx).parent is None {
                old(self).node(h_idx).left->0
            } else {
                old(self).root()
            },
            forall|z: usize|
                old(self).live(z) ==> #[trigger] final(self).node(z) == old(self).rotated_right_node(
                    h_idx,
                    z,
                ),
    {
        let ghost s0 = *self;
        let y_idx = self.relink_right(h_idx);
        let ghost s1 = *self;
        let ghost sh = s0.span_of(h_idx);
        let ghost sy = s0.span_of(y_idx);
        proof {
            assert(s0.linked(h_idx) && s0.sized(h_idx));
            assert(s0.linked(y_idx) && s0.sized(y_idx));
            assert(s1.node(h_idx) == (Node {
                size: s0.node(h_idx).size,
                ..s0.rotated_right_node(h_idx, h_idx)
            }));
            assert(s1.node(y_idx) == (Node {
                size: s0.node(y_idx).size,
                ..s0.rotated_right_node(h_idx, y_idx)
            }));
            if let Some(c) = s0.node(h_idx).right {
                assert(s0.linked(c) && s0.sized(c));
                assert(s1.node(c).size == s0.node(c).size);
            }
            if let Some(c) = s0.node(y_idx).right {
                assert(s0.linked(c) && s0.sized(c));
                assert(s1.node(c).size == s0.node(c).size);
            }
            if let Some(c) = s0.node(y_idx).left {
                assert(s0.linked(c) && s0.sized(c));
                assert(s1.node(c).size == s0.node(c).size);
            }
        }
        // The sizes are read through the new links.
        assert(s1.live(h_idx) && s1.live(y_idx));
        self.refresh_size(h_idx);
        assert(self.node(h_idx).size == sh.hi - sy.pos - 1);
        assert(self.live(y_idx));
        self.refresh_size(y_idx);
        proof {
            assert forall|z: usize| #[trigger] self.live(z) == s0.live(z) by {
                assert(s1.live(z) == s0.live(z));
            }
            self.span@ = self.span@.insert(
                h_idx,
                Span { lo: sy.pos + 1, pos: sh.pos, hi: sh.hi },
            ).insert(y_idx, Span { lo: sh.lo, pos: sy.pos, hi: sh.hi });
            assert forall|z: usize| s0.live(z) implies #[trigger] self.node(z)
                == s0.rotated_right_node(h_idx, z) by {
                assert(s1.node(z) == (Node {
                    size: s0.node(z).size,
                    ..s0.rotated_right_node(h_idx, z)
                }));
            }
            s0.lemma_rotated_right(self, h_idx);
        }
    }

    /// The result of a right rotation is a tree over the same sequence.
    #[verifier::rlimit(40)]
    proof fn lemma_rotated_right(&self, post: &TList<T>, h: usize)
        requires
            self.structure_ok(),
            self.live(h),
            self.node(h).left is Some,
            post.rotated_frame(self, h, self.node(h).left->0),
            forall|z: usize|
                self.live(z) ==> #[trigger] post.node(z) == self.rotated_right_node(h, z),
            ({
                let y = self.node(h).left->0;
                &&& post.span_of(h) == (Span {
                    lo: self.span_of(y).pos + 1,
                    pos: self.span_of(h).pos,
                    hi: self.span_of(h).hi,
                })
                &&& post.span_of(y) == (Span {
                    lo: self.span_of(h).lo,
                    pos: self.span_of(y).pos,
                    hi: self.span_of(h).hi,
                })
            }),
        ensures
            post.structure_ok(),
            post@ == self@,
    {
        let y = self.node(h).left->0;
        assert(self.linked(h) && self.sized(h));
        assert(self.linked(y) && self.sized(y));
        assert forall|z: usize| post.live(z) implies #[trigger] post.linked(z) by {
            assert(self.linked(z));
            if let Some(c) = self.node(z).right {
                assert(self.linked(c));
            }
            if let Some(c) = self.node(z).left {
                assert(self.linked(c));
            }
            if let Some(p) = self.node(z).parent {
                assert(self.linked(p));
            }
        }
        assert forall|z: usize| post.live(z) implies #[trigger] post.sized(z) by {
            assert(self.sized(z));
            assert(self.linked(z));
            if let Some(c) = self.node(z).right {
                assert(self.sized(c));
            }
            if let Some(y) = self.node(z).left {
                assert(self.sized(y));
                assert(self.linked(y));
                if let Some(c) = self.node(y).right {
                    assert(self.sized(c));
                }
            }
        }
        assert(post@ =~= self@);
        assert forall|i: int| 0 <= i < post.free_list@.len() implies post.vacant(
            #[trigger] post.free_list@[i],
        ) by {
            assert(self.vacant(self.free_list@[i]));
            assert(!post.live(post.free_list@[i]));
        }
        assert forall|i: int| 0 <= i < post.order@.len() implies post.live(
            #[trigger] post.order@[i],
        ) && post.span_of(post.order@[i]).pos == i by {
            assert(self.live(self.order@[i]));
        }
        if self.order@.len() > 0 {
            assert(self.linked(self.root_idx));
        }
    }

    /// Rotates the node in slot `h_idx` down to the side `dir`: its child on
    /// the other side takes its place.
    pub(crate) fn rotate(&mut self, h_idx: usize, dir: Dir)
        requires
            old(self).structure_ok(),
            old(self).live(h_idx),
            kid(old(self).node(h_idx), flip(dir)) is Some,
        ensures
            final(self).structure_ok(),
            final(self)@ == old(self)@,
            final(self).handles() == old(self).handles(),
            final(self).slots() == old(self).slots(),
            final(self).free_slots() == old(self).free_slots(),
            final(self).rotated_frame(old(self), h_idx, kid(old(self).node(h_idx), flip(dir))->0),
            final(self).turned(old(self), h_idx, dir),
    {
        match dir {
            Dir::Left => self.left_rotate(h_idx),
            Dir::Right => self.right_rotate(h_idx),
        }
        proof {
            match dir {
                Dir::Left => old(self).lemma_turned_left(self, h_idx),
                Dir::Right => old(self).lemma_turned_right(self, h_idx),
            }
        }
    }

    /// A left rotation read without regard to the side.
    proof fn lemma_turned_left(&self, post: &TList<T>, h: usize)
        requires
            self.structure_ok(),
            self.live(h),
            self.node(h).right is Some,
            forall|z: usize|
                self.live(z) ==> #[trigger] post.node(z) == self.rotated_left_node(h, z),
        ensures
            post.turned(self, h, Dir::Left),
    {
        reveal(TList::turned);
        let y = self.node(h).right->0;
        assert(self.linked(h));
        assert(self.linked(y));
        assert(post.node(h) == self.rotated_left_node(h, h));
        assert(post.node(y) == self.rotated_left_node(h, y));
        assert forall|x: usize|
            #![trigger post.node(x)]
            #![trigger self.node(x)]
            self.live(x) && x != h && x != y implies post.node(x).color == self.node(x).color
            && post.node(x).left == redirected(self.node(x).left, h, y) && post.node(x).right
            == redirected(self.node(x).right, h, y) by {
            assert(post.node(x) == self.rotated_left_node(h, x));
            assert(self.linked(x));
        }
    }

    /// A right rotation read without regard to the side.
    proof fn lemma_turned_right(&self, post: &TList<T>, h: usize)
        requires
            self.structure_ok(),
            self.live(h),
            self.node(h).left is Some,
            forall|z: usize|
                self.live(z) ==> #[trigger] post.node(z) == self.rotated_right_node(h, z),
        ensures
            post.turned(self, h, Dir::Right),
    {
        reveal(TList::turned);
        let y = self.node(h).left->0;
        assert(self.linked(h));
        assert(self.linked(y));
        assert(post.node(h) == self.rotated_right_node(h, h));
        assert(post.node(y) == self.rotated_right_node(h, y));
        assert forall|x: usize|
            #![trigger post.node(x)]
            #![trigger self.node(x)]
            self.live(x) && x != h && x != y implies post.node(x).color == self.node(x).color
            && post.node(x).left == redirected(self.node(x).left, h, y) && post.node(x).right
            == redirected(self.node(x).right, h, y) by {
            assert(post.node(x) == self.rotated_right_node(h, x));
            assert(self.linked(x));
        }
    }
}

} // verus!
