//! Taking a node with at most one child out of the tree.

use vstd::prelude::*;
use crate::{span_after_remove, Dir, Node, TList};

verus! {

impl<T> TList<T> {
    /// Puts the link `v` in the place of the node `u`: the parent of `u`
    /// points to `v`, or `v` becomes the root, and `v` gets the parent of `u`.
    pub(crate) fn transplant(&mut self, u: usize, v: Option<usize>)
        requires
            old(self).live(u),
            old(self).node(u).parent matches Some(q) ==> old(self).live(q) && q != u,
            v matches Some(c) ==> old(self).live(c) && c != u && old(self).node(u).parent != Some(c),
        ensures
            final(self).node_list@.len() == old(self).node_list@.len(),
            final(self).free_list@ == old(self).free_list@,
            final(self).order@ == old(self).order@,
            final(self).span@ == old(self).span@,
            final(self).root_idx == if old(self).node(u).parent is None && v is Some {
                v->0
            } else {
                old(self).root_idx
            },
            forall|z: usize|
                #![trigger final(self).live(z)]
                #![trigger old(self).live(z)]
                final(self).live(z) == old(self).live(z),
            final(self).node(u) == old(self).node(u),
            forall|z: usize|
                #![trigger final(self).node(z)]
                #![trigger old(self).node(z)]
                old(self).live(z) && z != u ==> final(self).node(z) == (Node {
                    left: if old(self).node(u).parent == Some(z) && old(self).node(z).left == Some(
                        u,
                    ) {
                        v
                    } else {
                        old(self).node(z).left
                    },
                    right: if old(self).node(u).parent == Some(z) && old(self).node(z).left != Some(
                        u,
                    ) {
                        v
                    } else {
                        old(self).node(z).right
                    },
                    parent: if v == Some(z) {
                        old(self).node(u).parent
                    } else {
                        old(self).node(z).parent
                    },
                    ..old(self).node(z)
                }),
    {
        let u_p = self.get_parent_idx(u);
        match u_p {
            Some(up_idx) => {
                let is_left = match self.get_child_idx(up_idx, Dir::Left) {
                    Some(c) => c == u,
                    None => false,
                };
                if is_left {
                    self.set_left(up_idx, v);
                } else {
                    self.set_right(up_idx, v);
                }
            },
            None => {
                if let Some(c) = v {
                    self.root_idx = c;
                }
            },
        }
        if let Some(c) = v {
            self.set_parent(c, u_p);
        }
    }

    /// Takes the node in slot `y`, which has at most one child, out of the
    /// tree and out of the sequence, frees the slot and returns the node.
    pub(crate) fn splice_out(&mut self, y: usize, Ghost(prev): Ghost<TList<T>>) -> (removed: Option<
        Node<T>,
    >)
        requires
            prev.structure_ok(),
            prev.live(y),
            prev.node(y).left is None || prev.node(y).right is None,
            old(self).sizes_shrunk(&prev, y, prev.span_of(y).pos),
        ensures
            removed == Some(prev.node(y)),
            final(self).structure_ok(),
            final(self)@ == prev@.remove(prev.span_of(y).pos),
            final(self).handles() == prev.handles().remove(prev.span_of(y).pos),
            final(self).slots() == prev.slots(),
            final(self).free_slots() == prev.free_slots().push(y),
            final(self).spliced(
                &prev,
                y,
                if prev.node(y).left is Some {
                    prev.node(y).left
                } else {
                    prev.node(y).right
                },
            ),
            forall|z: usize|
                #![trigger final(self).span_of(z)]
                z != y ==> final(self).span_of(z) == span_after_remove(
                    prev.span_of(z),
                    prev.span_of(y).pos,
                ),
    {
        proof {
            assert(prev.linked(y));
            assert(self.live(y));
        }
        let y_left = self.get_child_idx(y, Dir::Left);
        let x = match y_left {
            Some(_) => y_left,
            None => self.get_child_idx(y, Dir::Right),
        };
        proof {
            if let Some(c) = x {
                assert(prev.linked(c));
                assert(self.live(c));
            }
            if let Some(q) = prev.node(y).parent {
                assert(prev.linked(q));
                assert(self.live(q));
            }
        }
        let ghost shrunk = *self;
        self.transplant(y, x);
        let ghost moved = *self;
        proof {
            assert forall|i: int| 0 <= i < self.free_list@.len() implies self.vacant(
                #[trigger] self.free_list@[i],
            ) by {
                let f = prev.free_list@[i];
                assert(prev.vacant(f));
                assert(!prev.live(f));
                assert(!shrunk.live(f));
                assert(!self.live(f));
            }
        }
        let removed = self.release(y);
        proof {
            let p = prev.span_of(y).pos;
            let old_span = prev.span@;
            self.order@ = prev.order@.remove(p);
            self.span@ = Map::total(|z: usize| span_after_remove(old_span[z], p));
            assert(prev.live(prev.order@[p]));
            assert forall|z: usize| prev.live(z) && z != y implies #[trigger] self.node(z) == (Node {
                left: if prev.node(z).left == Some(y) {
                    x
                } else {
                    prev.node(z).left
                },
                right: if prev.node(z).right == Some(y) {
                    x
                } else {
                    prev.node(z).right
                },
                parent: if x == Some(z) {
                    prev.node(y).parent
                } else {
                    prev.node(z).parent
                },
                size: if prev.holds(p, z) {
                    (prev.node(z).size - 1) as usize
                } else {
                    prev.node(z).size
                },
                ..prev.node(z)
            }) by {
                assert(shrunk.live(z));
                assert(moved.live(z));
                assert(prev.linked(z));
            }
            assert forall|z: usize| #[trigger] self.live(z) == (prev.live(z) && z != y) by {
                assert(moved.live(z) == shrunk.live(z));
            }
            prev.lemma_spliced(self, y, x);
        }
        removed
    }

    /// A tree without the node `y`, which had at most one child, with the
    /// sizes above it shrunk by one and the spans moved accordingly, is a
    /// tree over the sequence without the element of `y`.
    #[verifier::rlimit(40)]
    proof fn lemma_spliced(&self, post: &TList<T>, y: usize, x: Option<usize>)
        requires
            self.structure_ok(),
            self.live(y),
            self.node(y).left is None || self.node(y).right is None,
            x == if self.node(y).left is Some {
                self.node(y).left
            } else {
                self.node(y).right
            },
            post.order@ == self.order@.remove(self.span_of(y).pos),
            forall|z: usize|
                #![trigger post.span_of(z)]
                post.span_of(z) == span_after_remove(self.span_of(z), self.span_of(y).pos),
            forall|z: usize|
                #![trigger post.live(z)]
                #![trigger self.live(z)]
                post.live(z) == (self.live(z) && z != y),
            forall|z: usize|
                self.live(z) && z != y ==> #[trigger] post.node(z) == (Node {
                    left: if self.node(z).left == Some(y) {
                        x
                    } else {
                        self.node(z).left
                    },
                    right: if self.node(z).right == Some(y) {
                        x
                    } else {
                        self.node(z).right
                    },
                    parent: if x == Some(z) {
                        self.node(y).parent
                    } else {
                        self.node(z).parent
                    },
                    size: if self.holds(self.span_of(y).pos, z) {
                        (self.node(z).size - 1) as usize
                    } else {
                        self.node(z).size
                    },
                    ..self.node(z)
                }),
            post.root_idx == if self.node(y).parent is None && x is Some {
                x->0
            } else {
                self.root_idx
            },
            post.free_ok(),
            post.node_list@.len() == self.node_list@.len(),
            post.free_list@.len() == self.free_list@.len() + 1,
        ensures
            post.structure_ok(),
            post@ == self@.remove(self.span_of(y).pos),
            post.spliced(self, y, x),
    {
        let p = self.span_of(y).pos;
        assert(self.linked(y));
        assert(self.live(self.order@[p]));
        if let Some(c) = x {
            assert(self.linked(c));
        }
        if let Some(q) = self.node(y).parent {
            assert(self.linked(q));
        }
        assert forall|i: int| 0 <= i < post.order@.len() implies post.live(
            #[trigger] post.order@[i],
        ) && post.span_of(post.order@[i]).pos == i by {
            if i < p {
                let z = self.order@[i];
                assert(self.live(z));
                assert(self.linked(z));
            } else {
                let z = self.order@[i + 1];
                assert(self.live(z));
                assert(self.linked(z));
            }
        }
        assert forall|z: usize| post.live(z) implies #[trigger] post.linked(z) by {
            let n = post.node(z);
            let s = post.span_of(z);
            assert(self.linked(z));
            assert(self.live(self.order@[self.span_of(z).pos]));
            assert(self.span_of(z).pos != p);
            assert(post.order@[s.pos] == z);
            if let Some(l) = self.node(z).left {
                assert(self.linked(l));
            }
            if let Some(r) = self.node(z).right {
                assert(self.linked(r));
            }
            if let Some(q) = self.node(z).parent {
                assert(self.linked(q));
            }
            assert(match n.left {
                None => s.lo == s.pos,
                Some(l) => post.live(l) && post.node(l).parent == Some(z) && post.span_of(l).lo
                    == s.lo && post.span_of(l).hi == s.pos,
            });
            assert(match n.right {
                None => s.hi == s.pos + 1,
                Some(r) => post.live(r) && post.node(r).parent == Some(z) && post.span_of(r).lo
                    == s.pos + 1 && post.span_of(r).hi == s.hi,
            });
            assert(match n.parent {
                None => z == post.root_idx && s.lo == 0 && s.hi == post.order@.len(),
                Some(q) => post.live(q) && (post.node(q).left == Some(z) || post.node(q).right
                    == Some(z)),
            });
        }
        assert forall|z: usize| post.live(z) implies #[trigger] post.sized(z) by {
            assert(self.sized(z));
            assert(self.linked(z));
        }
        assert(self.linked(self.root_idx));
        if post.order@.len() > 0 {
            if self.node(y).parent is None {
                assert(x is Some);
            }
        }
        assert(post@ =~= self@.remove(p)) by {
            assert forall|i: int| 0 <= i < post.order@.len() implies post@[i] == self@.remove(p)[i] by {
                if i < p {
                    assert(self.live(self.order@[i]));
                } else {
                    assert(self.live(self.order@[i + 1]));
                }
            }
        }
    }
}

} // verus!
