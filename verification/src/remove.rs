//! Removal at a rank.

use vstd::prelude::*;
use crate::{Color, Dir, Node, TList};

mod descend;
mod repair;
mod splice;

verus! {

impl<T> TList<T> {
    /// Removes the element at rank `index` and returns it; the elements
    /// behind it move one rank down. Without such a rank nothing changes.
    pub fn remove(&mut self, index: usize) -> (r: Option<T>)
        requires
            old(self).wf(),
        ensures
            final(self).wf(),
            index >= old(self)@.len() ==> r is None && final(self)@ == old(self)@,
            index < old(self)@.len() ==> r == Some(old(self)@[index as int]) && final(self)@ == old(
                self,
            )@.remove(index as int),
            index >= old(self)@.len() ==> final(self).handles() == old(self).handles(),
            index >= old(self)@.len() ==> final(self).free_slots() == old(self).free_slots(),
            index < old(self)@.len() ==> final(self).handles() == old(self).handles().remove(
                old(self).rank_to_free(index as int),
            ),
            index < old(self)@.len() ==> final(self).free_slots() == old(self).free_slots().push(
                old(self).slot_to_free(index as int),
            ),
            final(self).slots() == old(self).slots(),
            old(self).black_balanced() ==> final(self).black_balanced(),
    {
        if index >= self.len() {
            return None;
        }
        let ghost prev = *self;
        let ghost bh = if prev.black_balanced() {
            choose|bh: Map<usize, nat>| prev.balanced_by(bh)
        } else {
            Map::empty()
        };
        let (z, y) = self.descend_for_remove(index);
        proof {
            assert(prev.linked(y));
            assert(prev.linked(z));
            assert(prev.live(prev.order@[index as int]));
            assert(self.live(y));
        }
        let y_color = self.color_at(y);
        let xp = self.get_parent_idx(y);
        let y_left = self.get_child_idx(y, Dir::Left);
        let x = match y_left {
            Some(_) => y_left,
            None => self.get_child_idx(y, Dir::Right),
        };
        let removed = self.splice_out(y, Ghost(prev));
        let ghost spliced = *self;
        match y_color {
            Color::Black => {
                proof {
                    prev.lemma_spliced_black(&spliced, y, x, bh);
                }
                let Ghost(out) = self.remove_fix_up(x, xp, Ghost(bh));
                proof {
                    if prev.black_balanced() {
                        assert(self.balanced_by(out));
                    }
                }
            },
            Color::Red => {
                proof {
                    prev.lemma_spliced_red(&spliced, y, x, bh);
                    if prev.black_balanced() {
                        assert(self.balanced_by(bh));
                    }
                }
            },
        }
        let ghost mended = *self;
        proof {
            let k = index as int;
            assert(prev@[k] == prev.node(z).data);
            assert(prev.span_of(z).pos == k);
            if y != z {
                assert(prev.live(prev.order@[k + 1]));
                assert(prev@[k + 1] == prev.node(y).data);
                assert(mended.handles()[k] == z);
                assert(mended@[k] == mended.node(z).data);
                assert(mended@[k] == prev@[k]);
            }
        }
        match removed {
            Some(node) => {
                let mut node = node;
                if y != z {
                    proof {
                        assert(mended.live(mended.order@[index as int]));
                        mended.lemma_data_frame(z);
                    }
                    match &mut self.node_list[z] {
                        Some(z_node) => {
                            core::mem::swap(&mut z_node.data, &mut node.data);
                        },
                        None => {},
                    }
                    proof {
                        assert(self.replaced(
                            &mended,
                            z,
                            Node { data: self.node(z).data, ..mended.node(z) },
                        ));
                        assert(self.structure_ok());
                        assert(self@ =~= prev@.remove(index as int));
                    }
                }
                Some(node.data)
            },
            None => None,
        }
    }

    /// After a black node has been taken out, the tree is in the state in
    /// which the repair begins, and the subtree that took the place of the
    /// node is one black node short.
    proof fn lemma_spliced_black(
        &self,
        post: &TList<T>,
        y: usize,
        x: Option<usize>,
        bh: Map<usize, nat>,
    )
        requires
            self.wf(),
            self.live(y),
            self.node(y).color == Color::Black,
            self.node(y).left is None || self.node(y).right is None,
            x == if self.node(y).left is Some {
                self.node(y).left
            } else {
                self.node(y).right
            },
            post.structure_ok(),
            post.spliced(self, y, x),
            post@.len() == self@.len() - 1,
        ensures
            post.black_missing_at(x, self.node(y).parent),
            self.balanced_by(bh) ==> post.deficit_by(bh, x, self.node(y).parent),
    {
        let xp = self.node(y).parent;
        assert(self.linked(y));
        assert(self.linked(self.root()));
        if let Some(c) = x {
            assert(self.linked(c));
        }
        if let Some(q) = xp {
            assert(self.linked(q));
        }
        assert forall|v: usize| post.live(v) implies #[trigger] post.no_red_red_about(v, x) by {
            assert(self.no_red_red(v));
            assert(self.linked(v));
        }
        if post@.len() > 0 && xp is None {
            assert(post.linked(post.root()));
        }
        if self.balanced_by(bh) {
            assert(self.balanced_at(bh, y));
            assert forall|v: usize| post.live(v) && Some(v) != xp implies #[trigger] post.balanced_at(
                bh,
                v,
            ) by {
                assert(self.balanced_at(bh, v));
                assert(self.linked(v));
            }
            if let Some(q) = xp {
                assert(self.balanced_at(bh, q));
                if self.node(q).left == Some(y) {
                    assert(post.short_on(bh, q, x, Dir::Left));
                } else {
                    assert(post.short_on(bh, q, x, Dir::Right));
                }
            }
        }
    }

    /// Taking a red node out leaves the colours in order.
    proof fn lemma_spliced_red(&self, post: &TList<T>, y: usize, x: Option<usize>, bh: Map<usize, nat>)
        requires
            self.wf(),
            self.live(y),
            self.node(y).color == Color::Red,
            self.node(y).left is None || self.node(y).right is None,
            x == if self.node(y).left is Some {
                self.node(y).left
            } else {
                self.node(y).right
            },
            post.structure_ok(),
            post.spliced(self, y, x),
            post@.len() == self@.len() - 1,
        ensures
            post.colors_ok(),
            self.balanced_by(bh) ==> post.balanced_by(bh),
    {
        assert(self.linked(y));
        assert(self.no_red_red(y));
        assert(self.linked(self.root()));
        if let Some(c) = x {
            assert(self.linked(c));
        }
        if let Some(q) = self.node(y).parent {
            assert(self.linked(q));
        }
        assert forall|v: usize| post.live(v) implies #[trigger] post.no_red_red(v) by {
            assert(self.no_red_red(v));
            assert(self.linked(v));
        }
        if self.balanced_by(bh) {
            assert(self.balanced_at(bh, y));
            assert forall|v: usize| post.live(v) implies #[trigger] post.balanced_at(bh, v) by {
                assert(self.balanced_at(bh, v));
                assert(self.linked(v));
            }
        }
    }

    /// Removes the last element and returns it, if there is one.
    pub fn pop(&mut self) -> (r: Option<T>)
        requires
            old(self).wf(),
        ensures
            final(self).wf(),
            old(self)@.len() == 0 ==> r is None && final(self)@ == old(self)@,
            old(self)@.len() > 0 ==> r == Some(old(self)@.last()) && final(self)@ == old(
                self,
            )@.drop_last(),
            old(self)@.len() == 0 ==> final(self).handles() == old(self).handles(),
            old(self)@.len() == 0 ==> final(self).free_slots() == old(self).free_slots(),
            old(self)@.len() > 0 ==> final(self).handles() == old(self).handles().drop_last(),
            old(self)@.len() > 0 ==> final(self).free_slots() == old(self).free_slots().push(
                old(self).handles().last(),
            ),
            final(self).slots() == old(self).slots(),
            old(self).black_balanced() ==> final(self).black_balanced(),
    {
        if self.len() == 0 {
            None
        } else {
            let loc = self.len() - 1;
            proof {
                assert(self@.remove(loc as int) =~= self@.drop_last());
                assert(self.handles().remove(loc as int) =~= self.handles().drop_last());
                assert(self.live(self.order@[loc as int]));
                assert(self.linked(self.order@[loc as int]));
                if let Some(c) = self.node(self.order@[loc as int]).right {
                    assert(self.linked(c));
                }
            }
            self.remove(loc)
        }
    }
}

} // verus!
