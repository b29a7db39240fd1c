//! Finding the node at a rank.

use vstd::prelude::*;
use crate::{Dir, Node, TList};

verus! {

impl<T> TList<T> {
    /// The handle of the node at rank `index`, if there is one.
    ///
    /// Walks down from the root; the size of the left subtree of a node is
    /// the rank of the node within its own subtree.
    pub fn search(&self, index: usize) -> (r: Option<usize>)
        requires
            self.structure_ok(),
        ensures
            index < self@.len() ==> r == Some(self.handles()[index as int]),
            index >= self@.len() ==> r is None,
    {
        if index >= self.len() {
            return None;
        }
        let mut rest: usize = index;
        let mut search_idx: usize = self.root_idx;
        assert(self.linked(self.root_idx));
        loop
            invariant
                self.structure_ok(),
                index < self.order@.len(),
                self.live(search_idx),
                self.span_of(search_idx).lo <= index < self.span_of(search_idx).hi,
                rest == index - self.span_of(search_idx).lo,
            decreases self.span_of(search_idx).hi - self.span_of(search_idx).lo,
        {
            assert(self.linked(search_idx) && self.sized(search_idx));
            assert(self.node(search_idx).left matches Some(l) ==> self.sized(l));
            let rank = self.get_child_size(search_idx, Dir::Left);
            if rank == rest {
                return Some(search_idx);
            }
            if rest < rank {
                match self.get_child_idx(search_idx, Dir::Left) {
                    Some(idx) => {
                        search_idx = idx;
                    },
                    None => {
                        return None;
                    },
                }
            } else {
                match self.get_child_idx(search_idx, Dir::Right) {
                    Some(idx) => {
                        rest -= rank + 1;
                        search_idx = idx;
                    },
                    None => {
                        return None;
                    },
                }
            }
        }
    }

    /// The element at rank `index`, if there is one.
    pub fn get(&self, index: usize) -> (r: Option<&T>)
        requires
            self.structure_ok(),
        ensures
            index < self@.len() ==> r == Some(&self@[index as int]),
            index >= self@.len() ==> r is None,
    {
        let target_idx = match self.search(index) {
            Some(idx) => idx,
            None => {
                return None;
            },
        };
        match &self.node_list[target_idx] {
            Some(node) => Some(&node.data),
            None => None,
        }
    }

    /// Replacing the element of one node keeps the invariant and changes the
    /// sequence at the position of that node only.
    pub(crate) proof fn lemma_data_replaced(&self, post: &TList<T>, x: usize, d: T)
        requires
            self.wf(),
            self.live(x),
            post.replaced(self, x, Node { data: d, ..self.node(x) }),
        ensures
            post.wf(),
            post@ == self@.update(self.span_of(x).pos, d),
            post.handles() == self.handles(),
            post.slots() == self.slots(),
            post.free_slots() == self.free_slots(),
            self.black_balanced() ==> post.black_balanced(),
    {
        assert forall|y: usize| post.live(y) implies #[trigger] post.linked(y) by {
            assert(self.live(y));
            assert(self.linked(y));
        }
        assert forall|y: usize| post.live(y) implies #[trigger] post.sized(y) by {
            assert(self.sized(y));
        }
        assert forall|y: usize| post.live(y) implies #[trigger] post.no_red_red(y) by {
            assert(self.no_red_red(y));
            assert(self.linked(y));
        }
        assert(self@.len() > 0 ==> self.linked(self.root()));
        assert(self.linked(x));
        assert(post@ =~= self@.update(self.span_of(x).pos, d));
        if self.black_balanced() {
            let bh = choose|bh: Map<usize, nat>| self.balanced_by(bh);
            assert forall|y: usize| post.live(y) implies #[trigger] post.balanced_at(bh, y) by {
                assert(self.balanced_at(bh, y));
                assert(self.linked(y));
            }
            assert(post.balanced_by(bh));
        }
    }

    /// Whatever element is written into the node in slot `x`, the invariant
    /// stays and the sequence changes at the position of `x` only.
    pub(crate) proof fn lemma_data_frame(&self, x: usize)
        requires
            self.wf(),
            self.live(x),
        ensures
            forall|post: TList<T>|
                post.replaced(self, x, Node { data: post.node(x).data, ..self.node(x) })
                    ==> #[trigger] post.structure_ok() && post.colors_ok() && post@
                    == self@.update(self.span_of(x).pos, post.node(x).data) && post.handles()
                    == self.handles() && post.slots() == self.slots() && post.free_slots()
                    == self.free_slots() && (self.black_balanced() ==> post.black_balanced()),
    {
        assert forall|post: TList<T>|
            post.replaced(
                self,
                x,
                Node { data: post.node(x).data, ..self.node(x) },
            ) implies #[trigger] post.structure_ok() && post.colors_ok() && post@
            == self@.update(self.span_of(x).pos, post.node(x).data) && post.handles()
            == self.handles() && post.slots() == self.slots() && post.free_slots()
            == self.free_slots() && (self.black_balanced() ==> post.black_balanced()) by {
            self.lemma_data_replaced(&post, x, post.node(x).data);
        }
    }

    /// Exclusive access to the element at rank `index`, if there is one.
    /// What the caller writes there becomes the element at that rank.
    pub fn get_mut(&mut self, index: usize) -> (r: Option<&mut T>)
        requires
            old(self).wf(),
        ensures
            index >= old(self)@.len() ==> r is None && final(self)@ == old(self)@,
            index < old(self)@.len() ==> r is Some && *r->0 == old(self)@[index as int]
                && final(self)@ == old(self)@.update(index as int, *final(r->0)),
            final(self).wf(),
            final(self).handles() == old(self).handles(),
            final(self).slots() == old(self).slots(),
            final(self).free_slots() == old(self).free_slots(),
            old(self).black_balanced() ==> final(self).black_balanced(),
    {
        let target_idx = match self.search(index) {
            Some(idx) => idx,
            None => {
                return None;
            },
        };
        proof {
            self.lemma_data_frame(target_idx);
            assert(self.linked(target_idx));
        }
        let r = match &mut self.node_list[target_idx] {
            Some(node) => Some(&mut node.data),
            None => None,
        };
        r
    }
}

} // verus!
