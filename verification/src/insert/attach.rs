//! Hanging a new node into the tree at the end of the path that the descent
//! has prepared.

use vstd::prelude::*;
use crate::{span_after_insert, Dir, Node, Span, TList};

verus! {

impl<T> TList<T> {
    /// Links the node in slot `leaf` below `parent` on the side `side` and
    /// enters it into the sequence at rank `k`.
    pub(crate) fn attach_leaf(
        &mut self,
        parent: usize,
        side: Dir,
        leaf: usize,
        k: usize,
        Ghost(prev): Ghost<TList<T>>,
        Ghost(mid): Ghost<TList<T>>,
    )
        requires
            prev.structure_ok(),
            prev.handles().len() > 0,
            k <= prev.handles().len(),
            mid.allocated(&prev, leaf, mid.node(leaf)),
            mid.node(leaf).parent is None,
            mid.node(leaf).left is None,
            mid.node(leaf).right is None,
            mid.node(leaf).size == 1,
            old(self).sizes_grown(&mid, leaf, k as int),
            prev.live(parent),
            prev.on_path(k as int, parent),
            prev.path_child(k as int, parent) is None,
            forall|z: usize|
                prev.live(z) && prev.on_path(k as int, z) && z != parent ==> #[trigger] prev.path_child(
                    k as int,
                    z,
                ) is Some,
            side == Dir::Left <==> k <= prev.span_of(parent).pos,
        ensures
            final(self).structure_ok(),
            final(self)@ == prev@.insert(k as int, mid.node(leaf).data),
            final(self).handles() == prev.handles().insert(k as int, leaf),
            final(self).slots() == mid.slots(),
            final(self).free_slots() == mid.free_slots(),
            final(self).hung(&prev, parent, side, leaf),
            final(self).node(leaf) == (Node { parent: Some(parent), ..mid.node(leaf) }),
    {
        proof {
            assert(mid.live(parent));
            assert(mid.live(leaf));
            assert(self.node_list@.len() == self.node_list.len());
        }
        match side {
            Dir::Left => self.set_left(parent, Some(leaf)),
            Dir::Right => self.set_right(parent, Some(leaf)),
        }
        self.set_parent(leaf, Some(parent));
        proof {
            let kk = k as int;
            let old_span = prev.span@;
            self.order@ = prev.order@.insert(kk, leaf);
            self.span@ = Map::total(
                |z: usize|
                    if z == leaf {
                        Span { lo: kk, pos: kk, hi: kk + 1 }
                    } else {
                        span_after_insert(old_span[z], kk)
                    },
            );
            assert forall|z: usize| prev.live(z) implies #[trigger] self.node(z) == (Node {
                left: if z == parent && side == Dir::Left {
                    Some(leaf)
                } else {
                    prev.node(z).left
                },
                right: if z == parent && side == Dir::Right {
                    Some(leaf)
                } else {
                    prev.node(z).right
                },
                size: if prev.on_path(kk, z) {
                    (prev.node(z).size + 1) as usize
                } else {
                    prev.node(z).size
                },
                ..prev.node(z)
            }) by {
                assert(mid.live(z));
                assert(mid.node(z) == prev.node(z));
            }
            assert forall|i: int| 0 <= i < self.free_list@.len() implies self.vacant(
                #[trigger] self.free_list@[i],
            ) by {
                assert(mid.vacant(mid.free_list@[i]));
                assert(!old(self).live(mid.free_list@[i]));
            }
            prev.lemma_attached(self, parent, side, leaf, kk);
        }
    }

    /// A tree with a new leaf at the end of the path of rank `k`, the sizes
    /// on the path grown by one and the spans moved accordingly, is a tree
    /// over the sequence with the new element inserted at `k`.
    #[verifier::rlimit(40)]
    proof fn lemma_attached(&self, post: &TList<T>, parent: usize, side: Dir, leaf: usize, k: int)
        requires
            self.structure_ok(),
            self.order@.len() > 0,
            self.order@.len() < usize::MAX,
            0 <= k <= self.order@.len(),
            self.live(parent),
            self.on_path(k, parent),
            self.path_child(k, parent) is None,
            forall|z: usize|
                self.live(z) && self.on_path(k, z) && z != parent ==> #[trigger] self.path_child(
                    k,
                    z,
                ) is Some,
            side == Dir::Left <==> k <= self.span_of(parent).pos,
            !self.live(leaf),
            post.live(leaf),
            post.node(leaf).parent == Some(parent),
            post.node(leaf).left is None,
            post.node(leaf).right is None,
            post.node(leaf).size == 1,
            post.root_idx == self.root_idx,
            post.order@ == self.order@.insert(k, leaf),
            post.span_of(leaf) == (Span { lo: k, pos: k, hi: k + 1 }),
            forall|z: usize|
                z != leaf ==> #[trigger] post.span_of(z) == span_after_insert(self.span_of(z), k),
            forall|z: usize|
                #![trigger post.live(z)]
                #![trigger self.live(z)]
                post.live(z) == (self.live(z) || z == leaf),
            forall|z: usize|
                self.live(z) ==> #[trigger] post.node(z) == (Node {
                    left: if z == parent && side == Dir::Left {
                        Some(leaf)
                    } else {
                        self.node(z).left
                    },
                    right: if z == parent && side == Dir::Right {
                        Some(leaf)
                    } else {
                        self.node(z).right
                    },
                    size: if self.on_path(k, z) {
                        (self.node(z).size + 1) as usize
                    } else {
                        self.node(z).size
                    },
                    ..self.node(z)
                }),
            post.free_ok(),
            post.node_list@.len() - post.free_list@.len() == self.node_list@.len()
                - self.free_list@.len() + 1,
        ensures
            post.structure_ok(),
            post@ == self@.insert(k, post.node(leaf).data),
            post.hung(self, parent, side, leaf),
    {
        assert forall|i: int| 0 <= i < post.order@.len() implies post.live(
            #[trigger] post.order@[i],
        ) && post.span_of(post.order@[i]).pos == i by {
            if i < k {
                let z = self.order@[i];
                assert(self.live(z));
                assert(self.linked(z));
            } else if i > k {
                let z = self.order@[i - 1];
                assert(self.live(z));
                assert(self.linked(z));
            }
        }
        assert forall|z: usize| post.live(z) implies #[trigger] post.linked(z) by {
            let n = post.node(z);
            let s = post.span_of(z);
            if z != leaf {
                assert(self.linked(z));
                assert(self.on_path(k, z) && z != parent ==> self.path_child(k, z) is Some);
                assert(self.live(self.order@[self.span_of(z).pos]));
                assert(post.order@[s.pos] == z);
                if let Some(l) = self.node(z).left {
                    assert(self.linked(l));
                }
                if let Some(r) = self.node(z).right {
                    assert(self.linked(r));
                }
                if let Some(p) = self.node(z).parent {
                    assert(self.linked(p));
                }
                assert(match n.left {
                    None => s.lo == s.pos,
                    Some(l) => post.live(l) && post.node(l).parent == Some(z) && post.span_of(l).lo
                        == s.lo && post.span_of(l).hi == s.pos,
                });
                assert(match n.right {
                    None => s.hi == s.pos + 1,
                    Some(r) => post.live(r) && post.node(r).parent == Some(z) && post.span_of(r).lo
                        == s.pos + 1 && post.span_of(r).hi == s.hi,
                });
                assert(match n.parent {
                    None => z == post.root_idx && s.lo == 0 && s.hi == post.order@.len(),
                    Some(p) => post.live(p) && (post.node(p).left == Some(z) || post.node(p).right
                        == Some(z)),
                });
            } else {
                assert(self.linked(parent));
                assert(post.order@[s.pos] == z);
            }
        }
        assert forall|z: usize| post.live(z) implies #[trigger] post.sized(z) by {
            if z != leaf {
                assert(self.sized(z));
                assert(self.linked(z));
            }
        }
        assert(self.linked(self.root_idx));
        assert(post@ =~= self@.insert(k, post.node(leaf).data)) by {
            assert forall|i: int| 0 <= i < post.order@.len() implies post@[i] == self@.insert(
                k,
                post.node(leaf).data,
            )[i] by {
                if i < k {
                    assert(self.live(self.order@[i]));
                } else if i > k {
                    assert(self.live(self.order@[i - 1]));
                }
            }
        }
    }
}

} // verus!
