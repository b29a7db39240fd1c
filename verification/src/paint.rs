//! Recolouring a node, which leaves the shape of the tree alone.

use vstd::prelude::*;
use crate::{Color, Node, TList};

verus! {

impl<T> TList<T> {
    /// Gives the node in slot `x` the colour `color`.
    pub(crate) fn paint(&mut self, x: usize, color: Color)
        requires
            old(self).structure_ok(),
            old(self).live(x),
        ensures
            final(self).structure_ok(),
            final(self)@ == old(self)@,
            final(self).handles() == old(self).handles(),
            final(self).slots() == old(self).slots(),
            final(self).free_slots() == old(self).free_slots(),
            final(self).replaced(old(self), x, Node { color, ..old(self).node(x) }),
    {
        self.set_color(x, color);
        proof {
            old(self).lemma_painted(self, x, color);
        }
    }

    /// A tree with one node recoloured is a tree over the same sequence.
    proof fn lemma_painted(&self, post: &TList<T>, x: usize, color: Color)
        requires
            self.structure_ok(),
            self.live(x),
            post.replaced(self, x, Node { color, ..self.node(x) }),
        ensures
            post.structure_ok(),
            post@ == self@,
    {
        assert forall|y: usize| post.live(y) implies #[trigger] post.linked(y) by {
            assert(self.linked(y));
        }
        assert forall|y: usize| post.live(y) implies #[trigger] post.sized(y) by {
            assert(self.sized(y));
        }
        assert(self.order@.len() > 0 ==> self.linked(self.root_idx));
        assert(post@ =~= self@);
    }
}

} // verus!
