//! Copying a node, and copying a list slot by slot.

use vstd::prelude::*;
use crate::{Node, TList};

verus! {

impl<T> TList<T> {
    /// `self` has in every slot what `prev` has there, but for the elements.
    pub open spec fn same_shape(&self, prev: &TList<T>) -> bool {
        &&& self.slots() == prev.slots()
        &&& self.free_slots() == prev.free_slots()
        &&& self.root() == prev.root()
        &&& forall|x: usize| #[trigger] self.live(x) == prev.live(x)
        &&& forall|x: usize|
            prev.live(x) ==> #[trigger] self.node(x) == (Node {
                data: self.node(x).data,
                ..prev.node(x)
            })
    }

    /// A list of the same shape, with the same ghost state, is in order as
    /// far as the other is, over elements that stand in the same slots.
    proof fn lemma_same_shape(&self, post: &TList<T>)
        requires
            post.same_shape(self),
            post.order@ == self.order@,
            post.span@ == self.span@,
        ensures
            self.structure_ok() ==> post.structure_ok(),
            self.wf() ==> post.wf(),
            self.structure_ok() && self.black_balanced() ==> post.black_balanced(),
            post@.len() == self@.len(),
            forall|i: int|
                0 <= i < self@.len() && self.live(self.handles()[i]) ==> #[trigger] post@[i]
                    == post.node(self.handles()[i]).data && self@[i] == self.node(
                    self.handles()[i],
                ).data,
    {
        if self.structure_ok() {
            assert forall|i: int| 0 <= i < post.free_list@.len() implies post.vacant(
                #[trigger] post.free_list@[i],
            ) by {
                assert(self.vacant(self.free_list@[i]));
                assert(!post.live(post.free_list@[i]));
            }
            assert forall|i: int| 0 <= i < post.order@.len() implies post.live(
                #[trigger] post.order@[i],
            ) && post.span_of(post.order@[i]).pos == i by {
                assert(self.live(self.order@[i]));
            }
            assert forall|x: usize| post.live(x) implies #[trigger] post.linked(x) by {
                assert(self.linked(x));
            }
            assert forall|x: usize| post.live(x) implies #[trigger] post.sized(x) by {
                assert(self.sized(x));
            }
            if self.order@.len() > 0 {
                assert(self.linked(self.root_idx));
            }
            if self.colors_ok() {
                assert forall|x: usize| post.live(x) implies #[trigger] post.no_red_red(x) by {
                    assert(self.no_red_red(x));
                    assert(self.linked(x));
                }
            }
            if self.black_balanced() {
                let bh = choose|bh: Map<usize, nat>| self.balanced_by(bh);
                assert forall|x: usize| post.live(x) implies #[trigger] post.balanced_at(bh, x) by {
                    assert(self.balanced_at(bh, x));
                    assert(self.linked(x));
                }
                assert(post.balanced_by(bh));
            }
        }
    }
}

impl<T: Clone> Clone for Node<T> {
    /// A node with the same colour, links and size, and a clone of the
    /// element.
    fn clone(&self) -> (res: Self)
        ensures
            res == (Node { data: res.data, ..*self }),
            cloned(self.data, res.data),
    {
        Node {
            data: self.data.clone(),
            color: self.color,
            parent: self.parent,
            left: self.left,
            right: self.right,
            size: self.size,
        }
    }
}

impl<T: Clone> Clone for TList<T> {
    /// A list with the same slots, in which every element is a clone of the
    /// element in the same slot.
    fn clone(&self) -> (res: Self)
        ensures
            res.same_shape(self),
            forall|x: usize| self.live(x) ==> cloned(self.node(x).data, #[trigger] res.node(x).data),
            self.structure_ok() ==> res.structure_ok() && res.handles() == self.handles() && res@.len()
                == self@.len(),
            self.structure_ok() ==> forall|i: int|
                0 <= i < self@.len() ==> cloned(self@[i], #[trigger] res@[i]),
            self.wf() ==> res.wf(),
            self.structure_ok() && self.black_balanced() ==> res.black_balanced(),
    {
        let mut node_list: Vec<Option<Node<T>>> = Vec::with_capacity(self.node_list.len());
        let mut i: usize = 0;
        while i < self.node_list.len()
            invariant
                i <= self.node_list@.len(),
                node_list@.len() == i,
                forall|j: int|
                    0 <= j < i ==> (#[trigger] node_list@[j] is Some) == (self.node_list@[j] is Some),
                forall|j: int|
                    0 <= j < i && self.node_list@[j] is Some ==> (#[trigger] node_list@[j])->0 == (Node {
                        data: (node_list@[j]->0).data,
                        ..self.node_list@[j]->0
                    }) && cloned((self.node_list@[j]->0).data, (node_list@[j]->0).data),
            decreases self.node_list@.len() - i,
        {
            let slot = match &self.node_list[i] {
                Some(node) => Some(node.clone()),
                None => None,
            };
            node_list.push(slot);
            i += 1;
        }
        let mut free_list: Vec<usize> = Vec::with_capacity(self.free_list.len());
        let mut k: usize = 0;
        while k < self.free_list.len()
            invariant
                k <= self.free_list@.len(),
                free_list@.len() == k,
                forall|j: int| 0 <= j < k ==> free_list@[j] == self.free_list@[j],
            decreases self.free_list@.len() - k,
        {
            free_list.push(self.free_list[k]);
            k += 1;
        }
        let res = TList {
            node_list,
            free_list,
            root_idx: self.root_idx,
            order: Ghost(self.order@),
            span: Ghost(self.span@),
        };
        proof {
            assert(res.free_list@ =~= self.free_list@);
            assert forall|x: usize| #[trigger] res.live(x) == self.live(x) by {
                if (x as int) < self.node_list@.len() {
                    assert((res.node_list@[x as int] is Some) == (self.node_list@[x as int] is Some));
                }
            }
            assert forall|x: usize| self.live(x) implies #[trigger] res.node(x) == (Node {
                data: res.node(x).data,
                ..self.node(x)
            }) && cloned(self.node(x).data, res.node(x).data) by {
                assert(res.node_list@[x as int]->0 == res.node(x));
            }
            self.lemma_same_shape(&res);
            if self.structure_ok() {
                assert forall|i: int| 0 <= i < self@.len() implies cloned(
                    self@[i],
                    #[trigger] res@[i],
                ) by {
                    assert(self.live(self.order@[i]));
                }
            }
        }
        res
    }
}

} // verus!
